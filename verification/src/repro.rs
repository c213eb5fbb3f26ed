//! Replaying a stored finding.
//!
//! Whether a finding still reproduces is two questions: whether the runtimes still behave as they
//! did, and whether that behaviour is still judged the same way. A replay looks at the rules and at
//! the versions first, and claims no verdict where either has changed.

use vstd::prelude::*;

use crate::case::OnnxCase;
use crate::environment::{components_of, version_in, version_of, Environment};
use crate::findings::{FindingModel, StoredFinding};
use crate::normalize::{element_total, normal_form, OnnxNormalizer};
use crate::oracle::{answers, countable, verdict_of, NamedModel, NamedOutput, OnnxOracle, Verdict};
use crate::outcome::{OnnxOutcome, OutcomeModel};
use crate::policy::{describe, description, drifted};
use crate::signature::{lemma_every_divergence_has_a_signature, of, signature_of};
use crate::text::{same_text, texts};

verus! {

/// What happened when a stored finding was run again.
#[derive(Debug, Clone, PartialEq, Eq)]
pub enum Replay {
    /// It diverges with the same signature.
    Reproduced { signature: String },
    /// It diverges in another way, so it is not the same finding.
    DivergedDifferently { was: String, now: String },
    /// The runtimes agree now.
    NoLongerDiverges,
    /// The rules have changed since, so no verdict is claimed.
    PolicyDrift { recorded: String, current: String },
    /// A version has changed since, so no verdict is claimed.
    EnvironmentDrift { differences: Vec<String> },
}

/// What a [`Replay`] holds.
#[verifier::ext_equal]
pub enum ReplayModel {
    Reproduced(Seq<char>),
    DivergedDifferently(Seq<char>, Seq<char>),
    NoLongerDiverges,
    PolicyDrift(Seq<char>, Seq<char>),
    EnvironmentDrift(Seq<Seq<char>>),
}

impl View for Replay {
    type V = ReplayModel;

    open spec fn view(&self) -> ReplayModel {
        match self {
            Replay::Reproduced { signature } => ReplayModel::Reproduced(signature@),
            Replay::DivergedDifferently { was, now } => ReplayModel::DivergedDifferently(
                was@,
                now@,
            ),
            Replay::NoLongerDiverges => ReplayModel::NoLongerDiverges,
            Replay::PolicyDrift { recorded, current } => ReplayModel::PolicyDrift(
                recorded@,
                current@,
            ),
            Replay::EnvironmentDrift { differences } => ReplayModel::EnvironmentDrift(
                texts(differences@),
            ),
        }
    }
}

impl Replay {
    /// Whether the stored finding is confirmed.
    pub fn confirms(&self) -> (r: bool)
        ensures
            r == (self@ is Reproduced),
    {
        match self {
            Replay::Reproduced { .. } => true,
            _ => false,
        }
    }
}

// ---- whether the same question is still asked ----

/// How a component has changed, if it has.
pub open spec fn change_text(
    name: Seq<char>,
    then: Seq<char>,
    now: Option<Seq<char>>,
) -> Option<Seq<char>> {
    match now {
        Some(version) => if version == then {
            None
        } else {
            Some(name + ": recorded "@ + then + ", now "@ + version)
        },
        None => Some(name + ": recorded "@ + then + ", now absent"@),
    }
}

/// How the first `n` recorded components have changed.
pub open spec fn changes_upto(
    then: Seq<(Seq<char>, Seq<char>)>,
    now: Seq<(Seq<char>, Seq<char>)>,
    n: nat,
) -> Seq<Seq<char>>
    decreases n,
{
    if n == 0 {
        Seq::empty()
    } else {
        let rest = changes_upto(then, now, (n - 1) as nat);
        match change_text(then[n - 1].0, then[n - 1].1, version_in(now, then[n - 1].0)) {
            Some(text) => rest.push(text),
            None => rest,
        }
    }
}

/// How the recorded components have changed. What is new since is no change of theirs.
fn changes(then: &Vec<(String, String)>, now: &Vec<(String, String)>) -> (r: Vec<String>)
    ensures
        texts(r@) == changes_upto(components_of(then@), components_of(now@), then@.len()),
{
    let ghost old_ones = components_of(then@);
    let ghost new_ones = components_of(now@);
    let mut out: Vec<String> = Vec::new();
    let mut i: usize = 0;
    assert(texts(out@) =~= changes_upto(old_ones, new_ones, 0));
    while i < then.len()
        invariant
            i <= then.len(),
            old_ones == components_of(then@),
            new_ones == components_of(now@),
            texts(out@) == changes_upto(old_ones, new_ones, i as nat),
        decreases then.len() - i,
    {
        let name: &String = &then[i].0;
        let version: &String = &then[i].1;
        assert(old_ones[i as int] == (name@, version@));
        let ghost before = out@;
        match version_of(now, name.as_str()) {
            Some(current) => {
                if !same_text(current.as_str(), version.as_str()) {
                    let mut text: String = name.clone();
                    text.append(": recorded ");
                    text.append(version.as_str());
                    text.append(", now ");
                    text.append(current.as_str());
                    out.push(text);
                    assert(texts(out@) =~= texts(before).push(text@));
                }
            },
            None => {
                let mut text: String = name.clone();
                text.append(": recorded ");
                text.append(version.as_str());
                text.append(", now absent");
                out.push(text);
                assert(texts(out@) =~= texts(before).push(text@));
            },
        }
        i += 1;
    }
    out
}

/// Why no verdict can be claimed, if none can. The rules are looked at before the versions.
pub open spec fn suspended(
    finding: FindingModel,
    now: Seq<(Seq<char>, Seq<char>)>,
) -> Option<ReplayModel> {
    let then = finding.environment.components;
    let differences = changes_upto(then, now, then.len());
    if drifted(finding.policy) {
        Some(
            ReplayModel::PolicyDrift(
                if finding.policy.len() == 0 {
                    "(none recorded)"@
                } else {
                    finding.policy
                },
                description(),
            ),
        )
    } else if differences.len() > 0 {
        Some(ReplayModel::EnvironmentDrift(differences))
    } else {
        None
    }
}

/// Why no verdict can be claimed, if none can. Nothing needs to run to find out.
pub fn drift(finding: &StoredFinding, current: &Environment) -> (r: Option<Replay>)
    ensures
        match r {
            Some(replay) => suspended(finding@, current@.components) == Some(replay@),
            None => suspended(finding@, current@.components) is None,
        },
{
    if !finding.policy_is_current() {
        let recorded: String = if same_text(finding.policy.as_str(), "") {
            assert(finding.policy@ == ""@);
            "(none recorded)".to_owned()
        } else {
            finding.policy.as_str().to_owned()
        };
        proof {
            reveal_strlit("");
            if finding.policy@.len() == 0 {
                assert(finding.policy@ =~= ""@);
            }
        }
        return Some(Replay::PolicyDrift { recorded, current: describe() });
    }
    let differences: Vec<String> = changes(&finding.environment.components, &current.components);
    assert(texts(differences@).len() == differences@.len());
    if differences.len() > 0 {
        return Some(Replay::EnvironmentDrift { differences });
    }
    None
}

// ---- the verdict ----

/// What a replay comes to, given every participant's answer.
pub open spec fn judgement(finding: FindingModel, outs: Seq<NamedModel>) -> ReplayModel {
    if verdict_of(finding.case, outs) is Diverged {
        match signature_of(finding.case, outs) {
            Some(s) => if s.key() == finding.signature {
                ReplayModel::Reproduced(s.key())
            } else {
                ReplayModel::DivergedDifferently(finding.signature, s.key())
            },
            None => ReplayModel::DivergedDifferently(finding.signature, "(no signature)"@),
        }
    } else {
        ReplayModel::NoLongerDiverges
    }
}

/// What a replay comes to, given every participant's answer to the stored case.
pub fn judge(finding: &StoredFinding, outputs: &Vec<NamedOutput>) -> (r: Replay)
    requires
        countable(answers(outputs@)),
    ensures
        r@ == judgement(finding@, answers(outputs@)),
{
    match OnnxOracle.check(&finding.case, outputs) {
        Verdict::Diverged(_) => match of(&finding.case, outputs) {
            Some(signature) => {
                let key: String = signature.key();
                if same_text(key.as_str(), finding.signature.as_str()) {
                    Replay::Reproduced { signature: key }
                } else {
                    Replay::DivergedDifferently {
                        was: finding.signature.as_str().to_owned(),
                        now: key,
                    }
                }
            },
            None => Replay::DivergedDifferently {
                was: finding.signature.as_str().to_owned(),
                now: "(no signature)".to_owned(),
            },
        },
        _ => Replay::NoLongerDiverges,
    }
}

/// What a participant that gave no outcome is taken to have done.
pub open spec fn outcome_or_crash(outcome: Option<OnnxOutcome>) -> OutcomeModel {
    match outcome {
        Some(o) => o@,
        None => OutcomeModel::Crashed("the adapter returned an error"@),
    }
}

/// The answers of named participants that gave some outcomes.
pub open spec fn answers_of(names: Seq<Seq<char>>, outcomes: Seq<Option<OnnxOutcome>>) -> Seq<
    NamedModel,
> {
    Seq::new(
        names.len(),
        |i: int|
            NamedModel {
                implementation: names[i],
                output: normal_form(outcome_or_crash(outcomes[i])),
            },
    )
}

/// Runs a stored finding again. `run` is called for each participant, by its position, and never
/// where no verdict can be claimed. The stored case is run, and not one drawn anew from the seed.
pub fn replay<F: Fn(&OnnxCase, usize) -> Option<OnnxOutcome>>(
    finding: &StoredFinding,
    current: &Environment,
    participants: &Vec<String>,
    run: F,
) -> (r: Replay)
    requires
        suspended(finding@, current@.components) is None ==> forall|i: usize|
            i < participants@.len() ==> call_requires(run, (&finding.case, i)),
        forall|i: usize, o: Option<OnnxOutcome>|
            #[trigger] call_ensures(run, (&finding.case, i), o) ==> element_total(
                normal_form(outcome_or_crash(o)),
            ) <= usize::MAX,
    ensures
        match suspended(finding@, current@.components) {
            Some(reason) => r@ == reason,
            None => exists|outcomes: Seq<Option<OnnxOutcome>>|
                {
                    &&& outcomes.len() == participants@.len()
                    &&& forall|i: usize|
                        i < outcomes.len() ==> call_ensures(
                            run,
                            (&finding.case, i),
                            #[trigger] outcomes[i as int],
                        )
                    &&& r@ == judgement(
                        finding@,
                        #[trigger] answers_of(texts(participants@), outcomes),
                    )
                },
        },
{
    match drift(finding, current) {
        Some(reason) => reason,
        None => {
            let ghost mut outcomes: Seq<Option<OnnxOutcome>> = Seq::empty();
            let mut outputs: Vec<NamedOutput> = Vec::new();
            while outputs.len() < participants.len()
                invariant
                    outputs.len() <= participants.len(),
                    outcomes.len() == outputs.len(),
                    forall|i: usize|
                        i < participants@.len() ==> call_requires(run, (&finding.case, i)),
                    forall|i: usize, o: Option<OnnxOutcome>|
                        #[trigger] call_ensures(run, (&finding.case, i), o) ==> element_total(
                            normal_form(outcome_or_crash(o)),
                        ) <= usize::MAX,
                    forall|i: usize|
                        i < outcomes.len() ==> call_ensures(
                            run,
                            (&finding.case, i),
                            #[trigger] outcomes[i as int],
                        ),
                    forall|i: int|
                        0 <= i < outputs@.len() ==> (#[trigger] answers(outputs@)[i])
                            == (NamedModel {
                            implementation: participants@[i]@,
                            output: normal_form(outcome_or_crash(outcomes[i])),
                        }),
                decreases participants.len() - outputs.len(),
            {
                let i: usize = outputs.len();
                let ghost before = outputs@;
                let outcome: Option<OnnxOutcome> = run(&finding.case, i);
                proof {
                    outcomes = outcomes.push(outcome);
                }
                let settled: OnnxOutcome = match outcome {
                    Some(o) => o,
                    None => OnnxOutcome::Crashed {
                        detail: "the adapter returned an error".to_owned(),
                    },
                };
                assert(settled@ == outcome_or_crash(outcomes[i as int]));
                let output = OnnxNormalizer.normalize(settled);
                outputs.push(
                    NamedOutput { implementation: participants[i].as_str().to_owned(), output },
                );
                assert forall|k: int| 0 <= k < outputs@.len() implies (#[trigger] answers(
                    outputs@,
                )[k]) == (NamedModel {
                    implementation: participants@[k]@,
                    output: normal_form(outcome_or_crash(outcomes[k])),
                }) by {
                    if k < i {
                        assert(outputs@[k] == before[k]);
                        assert(answers(before)[k] == answers(outputs@)[k]);
                    }
                }
            }
            proof {
                assert(answers(outputs@) =~= answers_of(texts(participants@), outcomes));
                assert forall|i: int| 0 <= i < answers(outputs@).len() implies element_total(
                    (#[trigger] answers(outputs@)[i]).output,
                ) <= usize::MAX by {
                    let o = outcomes[i as usize as int];
                    assert(call_ensures(run, (&finding.case, i as usize), o));
                    assert(element_total(normal_form(outcome_or_crash(o))) <= usize::MAX);
                }
            }
            judge(finding, &outputs)
        },
    }
}

// ---- laws ----

/// A change of the rules leaves a finding unjudged: whatever the runtimes would say, it is neither
/// confirmed nor closed.
pub proof fn lemma_other_rules_claim_nothing(
    finding: FindingModel,
    now: Seq<(Seq<char>, Seq<char>)>,
)
    requires
        drifted(finding.policy),
    ensures
        suspended(finding, now) is Some,
        suspended(finding, now)->0 is PolicyDrift,
{
}

/// A divergence always has a signature, so a replay that diverges is compared by its key.
pub proof fn lemma_a_divergence_is_compared_by_its_key(
    finding: FindingModel,
    outs: Seq<NamedModel>,
)
    requires
        verdict_of(finding.case, outs) is Diverged,
    ensures
        signature_of(finding.case, outs) is Some,
        judgement(finding, outs) is Reproduced <==> signature_of(finding.case, outs)->0.key()
            == finding.signature,
{
    lemma_every_divergence_has_a_signature(finding.case, outs);
}

proof fn lemma_same_components_do_not_change(c: Seq<(Seq<char>, Seq<char>)>, n: nat)
    requires
        n <= c.len(),
        forall|i: int, j: int|
            0 <= i < c.len() && 0 <= j < c.len() && (#[trigger] c[i]).0 == (#[trigger] c[j]).0
                ==> c[i].1 == c[j].1,
    ensures
        changes_upto(c, c, n).len() == 0,
    decreases n,
{
    if n > 0 {
        lemma_same_components_do_not_change(c, (n - 1) as nat);
        lemma_version_is_found(c, c[n - 1].0, n - 1);
    }
}

proof fn lemma_version_is_found(c: Seq<(Seq<char>, Seq<char>)>, name: Seq<char>, at: int)
    requires
        0 <= at < c.len(),
        c[at].0 == name,
    ensures
        version_in(c, name) is Some,
        exists|k: int| 0 <= k < c.len() && (#[trigger] c[k]).0 == name && version_in(c, name) == Some(c[k].1),
    decreases c.len(),
{
    if c[0].0 == name {
        assert(version_in(c, name) == Some(c[0].1));
    } else {
        let rest = c.skip(1);
        assert(rest[at - 1] == c[at]);
        lemma_version_is_found(rest, name, at - 1);
        let k = choose|k: int|
            0 <= k < rest.len() && (#[trigger] rest[k]).0 == name && version_in(rest, name) == Some(
                rest[k].1,
            );
        assert(c[k + 1] == rest[k]);
    }
}

/// A finding that is replayed where it was made, under the rules it was made under, is judged.
pub proof fn lemma_an_unchanged_finding_is_judged(finding: FindingModel)
    requires
        !drifted(finding.policy),
        forall|i: int, j: int|
            0 <= i < finding.environment.components.len() && 0 <= j
                < finding.environment.components.len()
                && (#[trigger] finding.environment.components[i]).0
                == (#[trigger] finding.environment.components[j]).0
                ==> finding.environment.components[i].1 == finding.environment.components[j].1,
    ensures
        suspended(finding, finding.environment.components) is None,
{
    lemma_same_components_do_not_change(
        finding.environment.components,
        finding.environment.components.len(),
    );
}

} // verus!
