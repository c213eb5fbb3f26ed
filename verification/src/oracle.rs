//! The verdict on a case, given every participant's answer.
//!
//! A crash on a valid model is a defect whatever the others said, so it is looked for first. A
//! declared gap is nobody's defect, so it is left out of the comparison. What remains is sorted
//! into groups that agree, and more than one group is a divergence.
//!
//! Agreement has to be earned. Two empty tensors agree about nothing, and so do two `NaN`s whose
//! payloads differ; such a case is skipped and never counted as evidence.

use vstd::prelude::*;

use crate::case::{CaseModel, OnnxCase, OpKind};
use crate::describe::{case_text, describe_case};
use crate::normalize::{agree, agreement, canons_model, compare, element_total, elements_upto};
use crate::normalize::{equivalent, lemma_agreement_is_reflexive, lemma_agreement_is_symmetric};
use crate::normalize::{lemma_a_license_is_counted, lemma_agreement_is_transitive};
use crate::normalize::lemma_elements_grow;
use crate::normalize::{licensed_count, licensed_elements};
use crate::normalize::{Agreement, CanonModel, CanonTensor, Canonical, CanonicalModel};
use crate::order::{lemma_filtering_forgets_the_order, lemma_mapping_forgets_the_order};
use crate::order::{lemma_sorting_forgets_the_order, lemma_text_order};
use crate::order::{sort_strings, sort_texts, text_order};
use crate::text::{decimal, decimal_text, hex, hex_text, integers, integers_text, join};
use crate::text::{join_text, same_text, texts};

verus! {

// ---- what is judged, and what comes of it ----

/// One participant's answer.
#[derive(Debug, Clone)]
pub struct NamedOutput {
    pub implementation: String,
    pub output: Canonical,
}

/// What a [`NamedOutput`] holds.
#[verifier::ext_equal]
pub struct NamedModel {
    pub implementation: Seq<char>,
    pub output: CanonicalModel,
}

impl View for NamedOutput {
    type V = NamedModel;

    open spec fn view(&self) -> NamedModel {
        NamedModel { implementation: self.implementation@, output: self.output@ }
    }
}

/// The models of a sequence of answers.
pub open spec fn answers(v: Seq<NamedOutput>) -> Seq<NamedModel> {
    Seq::new(v.len(), |i: int| v[i]@)
}

/// Why a case was not judged.
#[derive(Debug, Clone, Copy, PartialEq, Eq, Structural)]
pub enum SkipReason {
    /// Fewer than two participants answered.
    TooFewResults { available: usize },
    /// The answers agree, but not about anything.
    NothingComparable { elements: usize },
}

/// A disagreement, with everything a reader needs.
#[derive(Debug, Clone, PartialEq, Eq)]
pub struct Divergence {
    pub input: String,
    pub outputs: Vec<(String, String)>,
    pub summary: String,
}

/// What the oracle says about a case.
#[derive(Debug, Clone, PartialEq, Eq)]
pub enum Verdict {
    Agree,
    Skipped(SkipReason),
    Diverged(Divergence),
}

/// What a [`Verdict`] holds.
#[verifier::ext_equal]
pub enum VerdictModel {
    Agree,
    Skipped(SkipReason),
    Diverged {
        input: Seq<char>,
        outputs: Seq<(Seq<char>, Seq<char>)>,
        summary: Seq<char>,
    },
}

impl View for Verdict {
    type V = VerdictModel;

    open spec fn view(&self) -> VerdictModel {
        match self {
            Verdict::Agree => VerdictModel::Agree,
            Verdict::Skipped(reason) => VerdictModel::Skipped(*reason),
            Verdict::Diverged(d) => VerdictModel::Diverged {
                input: d.input@,
                outputs: Seq::new(d.outputs@.len(), |i: int| (d.outputs@[i].0@, d.outputs@[i].1@)),
                summary: d.summary@,
            },
        }
    }
}

// ---- how answers are sorted ----

pub open spec fn is_defect() -> spec_fn(NamedModel) -> bool {
    |o: NamedModel| o.output.defect()
}

pub open spec fn is_comparable() -> spec_fn(NamedModel) -> bool {
    |o: NamedModel| !o.output.unsupported()
}

/// The participants' names.
pub open spec fn names_of(outs: Seq<NamedModel>) -> Seq<Seq<char>> {
    Seq::new(outs.len(), |i: int| outs[i].implementation)
}

/// The first group, from position `k` on, whose first member agrees with an answer; the number of
/// groups if there is none.
pub open spec fn group_for(groups: Seq<Seq<NamedModel>>, x: NamedModel, k: int) -> int
    decreases groups.len() - k,
{
    if k >= groups.len() {
        groups.len() as int
    } else if agree(groups[k][0].output, x.output) {
        k
    } else {
        group_for(groups, x, k + 1)
    }
}

/// Answers sorted into groups that agree, in the order they came.
pub open spec fn grouped(outs: Seq<NamedModel>) -> Seq<Seq<NamedModel>>
    decreases outs.len(),
{
    if outs.len() == 0 {
        Seq::empty()
    } else {
        let groups = grouped(outs.drop_last());
        let x = outs.last();
        let k = group_for(groups, x, 0);
        if k < groups.len() {
            groups.update(k, groups[k].push(x))
        } else {
            groups.push(seq![x])
        }
    }
}

/// Whether none of the answers holds a number.
pub open spec fn all_degenerate(outs: Seq<NamedModel>) -> bool {
    forall|i: int| 0 <= i < outs.len() ==> (#[trigger] outs[i]).output.degenerate()
}

/// The largest number of elements in which one of the first `n` answers agrees with the first
/// by license only.
pub open spec fn most_licensed(outs: Seq<NamedModel>, n: nat) -> nat
    decreases n,
{
    if n == 0 {
        0
    } else {
        let rest = most_licensed(outs, (n - 1) as nat);
        let here = if agreement(outs[0].output, outs[n - 1].output) == Agreement::ByLicense {
            licensed_count(outs[0].output, outs[n - 1].output)
        } else {
            0
        };
        if here > rest {
            here
        } else {
            rest
        }
    }
}

// ---- how a disagreement is told ----

/// Equal neighbours counted together.
pub open spec fn runs(s: Seq<Seq<char>>) -> Seq<(Seq<char>, nat)>
    decreases s.len(),
{
    if s.len() == 0 {
        Seq::empty()
    } else {
        let rest = runs(s.drop_last());
        if rest.len() > 0 && rest.last().0 == s.last() {
            rest.update(rest.len() - 1, (s.last(), rest.last().1 + 1))
        } else {
            rest.push((s.last(), 1))
        }
    }
}

/// How many answers there are of each kind, kinds in order.
pub open spec fn kinds_text(outs: Seq<NamedModel>) -> Seq<char> {
    let counts = runs(sort_texts(Seq::new(outs.len(), |i: int| outs[i].output.kind)));
    join_text(
        Seq::new(counts.len(), |i: int| decimal_text(counts[i].1) + "×"@ + counts[i].0),
        ", "@,
    )
}

/// What is said when somebody failed outright. Who failed is named in order.
pub open spec fn failure_text(op: OpKind, outs: Seq<NamedModel>) -> Seq<char> {
    let broken = outs.filter(is_defect());
    let names = faction_text(broken, ", "@);
    if broken.len() == outs.len() {
        "every participant failed on "@ + op.text() + " ("@ + names + ")"@
    } else {
        names + " failed on "@ + op.text() + " while others answered: "@ + kinds_text(outs)
    }
}

/// The names in a group, in order, with a separator.
pub open spec fn faction_text(group: Seq<NamedModel>, sep: Seq<char>) -> Seq<char> {
    join_text(sort_texts(names_of(group)), sep)
}

/// What is said when the answers fall into several groups. One against the rest is named as such.
pub open spec fn disagreement_text(op: OpKind, groups: Seq<Seq<NamedModel>>) -> Seq<char> {
    let smaller_first = groups.len() == 2 && groups[0].len() < groups[1].len();
    let small = if smaller_first { groups[0] } else { groups[1] };
    let large = if smaller_first { groups[1] } else { groups[0] };
    if groups.len() == 2 && small.len() == 1 && large.len() > 1 {
        op.text() + ": "@ + small[0].implementation + " disagrees with "@ + decimal_text(
            large.len(),
        ) + " others ("@ + faction_text(large, ", "@) + ")"@
    } else {
        op.text() + ": "@ + decimal_text(groups.len()) + " distinct results — "@ + join_text(
            sort_texts(Seq::new(groups.len(), |i: int| faction_text(groups[i], "+"@))),
            " | "@,
        )
    }
}

/// How a tensor is written beside a disagreement: its shape and the bits of its first sixteen
/// elements.
pub open spec fn rendered_tensor(t: CanonModel) -> Seq<char> {
    let shown: nat = if t.bits.len() > 16 { 16 } else { t.bits.len() };
    integers_text(t.dims) + "["@ + join_text(
        Seq::new(shown, |i: int| "0x"@ + hex_text(t.bits[i] as nat, 16)),
        " "@,
    ) + (if t.bits.len() > 16 {
        " ...["@ + decimal_text((t.bits.len() - 16) as nat) + " more]"@
    } else {
        Seq::empty()
    }) + "]"@
}

/// How an answer is written beside a disagreement.
pub open spec fn rendered(c: CanonicalModel) -> Seq<char> {
    if !c.ok() {
        c.kind + ": "@ + c.detail
    } else {
        join_text(Seq::new(c.tensors.len(), |i: int| rendered_tensor(c.tensors[i])), ", "@)
    }
}

/// A disagreement with everything a reader needs.
pub open spec fn divergence_of(
    c: CaseModel,
    outs: Seq<NamedModel>,
    summary: Seq<char>,
) -> VerdictModel {
    VerdictModel::Diverged {
        input: case_text(c),
        outputs: Seq::new(outs.len(), |i: int| (outs[i].implementation, rendered(outs[i].output))),
        summary,
    }
}

/// The verdict on a case.
pub open spec fn verdict_of(c: CaseModel, outs: Seq<NamedModel>) -> VerdictModel {
    let comparable = outs.filter(is_comparable());
    let groups = grouped(comparable);
    if outs.filter(is_defect()).len() > 0 {
        divergence_of(c, outs, failure_text(c.op, outs))
    } else if comparable.len() < 2 {
        VerdictModel::Skipped(
            SkipReason::TooFewResults { available: comparable.len() as usize },
        )
    } else if groups.len() == 1 {
        if all_degenerate(comparable) {
            VerdictModel::Skipped(
                SkipReason::NothingComparable {
                    elements: element_total(comparable[0].output) as usize,
                },
            )
        } else if most_licensed(comparable, comparable.len()) > 0 {
            VerdictModel::Skipped(
                SkipReason::NothingComparable {
                    elements: most_licensed(comparable, comparable.len()) as usize,
                },
            )
        } else {
            VerdictModel::Agree
        }
    } else {
        divergence_of(c, outs, disagreement_text(c.op, groups))
    }
}

// ---- judging ----

/// The answers at some positions.
pub open spec fn picked(outs: Seq<NamedModel>, at: Seq<usize>) -> Seq<NamedModel> {
    Seq::new(at.len(), |i: int| outs[at[i] as int])
}

/// Whether every position is one of `n`.
pub open spec fn positions(at: Seq<usize>, n: nat) -> bool {
    forall|i: int| 0 <= i < at.len() ==> (#[trigger] at[i]) < n
}

fn defects(outputs: &Vec<NamedOutput>) -> (r: Vec<usize>)
    ensures
        positions(r@, outputs@.len()),
        picked(answers(outputs@), r@) == answers(outputs@).filter(is_defect()),
{
    let ghost outs = answers(outputs@);
    let mut at: Vec<usize> = Vec::new();
    let mut i: usize = 0;
    proof {
        reveal(Seq::filter);
    }
    assert(outs.take(0) =~= Seq::empty());
    assert(picked(outs, at@) =~= outs.take(0).filter(is_defect()));
    while i < outputs.len()
        invariant
            i <= outputs.len(),
            outs == answers(outputs@),
            positions(at@, outputs@.len()),
            picked(outs, at@) == outs.take(i as int).filter(is_defect()),
        decreases outputs.len() - i,
    {
        let ghost before = picked(outs, at@);
        proof {
            assert(outs.take(i + 1) =~= outs.take(i as int).push(outs[i as int]));
            outs.take(i as int).lemma_filter_push(outs[i as int], is_defect());
        }
        if outputs[i].output.is_self_evident_defect() {
            at.push(i);
            assert(picked(outs, at@) =~= before.push(outs[i as int]));
        }
        i += 1;
    }
    assert(outs.take(outs.len() as int) =~= outs);
    at
}

fn comparables(outputs: &Vec<NamedOutput>) -> (r: Vec<usize>)
    ensures
        positions(r@, outputs@.len()),
        picked(answers(outputs@), r@) == answers(outputs@).filter(is_comparable()),
{
    let ghost outs = answers(outputs@);
    let mut at: Vec<usize> = Vec::new();
    let mut i: usize = 0;
    proof {
        reveal(Seq::filter);
    }
    assert(outs.take(0) =~= Seq::empty());
    assert(picked(outs, at@) =~= outs.take(0).filter(is_comparable()));
    while i < outputs.len()
        invariant
            i <= outputs.len(),
            outs == answers(outputs@),
            positions(at@, outputs@.len()),
            picked(outs, at@) == outs.take(i as int).filter(is_comparable()),
        decreases outputs.len() - i,
    {
        let ghost before = picked(outs, at@);
        proof {
            assert(outs.take(i + 1) =~= outs.take(i as int).push(outs[i as int]));
            outs.take(i as int).lemma_filter_push(outs[i as int], is_comparable());
        }
        if !outputs[i].output.is_unsupported() {
            at.push(i);
            assert(picked(outs, at@) =~= before.push(outs[i as int]));
        }
        i += 1;
    }
    assert(outs.take(outs.len() as int) =~= outs);
    at
}

/// The answers at lists of positions.
pub open spec fn picked_groups(outs: Seq<NamedModel>, groups: Seq<Vec<usize>>) -> Seq<
    Seq<NamedModel>,
> {
    Seq::new(groups.len(), |i: int| picked(outs, groups[i]@))
}

proof fn lemma_group_for(groups: Seq<Seq<NamedModel>>, x: NamedModel, k: int)
    requires
        0 <= k <= groups.len(),
    ensures
        k <= group_for(groups, x, k) <= groups.len(),
        group_for(groups, x, k) < groups.len() ==> agree(
            groups[group_for(groups, x, k)][0].output,
            x.output,
        ),
    decreases groups.len() - k,
{
    if k < groups.len() && !agree(groups[k][0].output, x.output) {
        lemma_group_for(groups, x, k + 1);
    }
}

proof fn lemma_groups_are_nonempty(outs: Seq<NamedModel>)
    ensures
        forall|k: int| 0 <= k < grouped(outs).len() ==> (#[trigger] grouped(outs)[k]).len() > 0,
        outs.len() > 0 ==> grouped(outs).len() > 0 && grouped(outs)[0][0] == outs[0],
    decreases outs.len(),
{
    if outs.len() > 0 {
        let front = outs.drop_last();
        lemma_groups_are_nonempty(front);
        lemma_group_for(grouped(front), outs.last(), 0);
        if front.len() > 0 {
            assert(front[0] == outs[0]);
        } else {
            assert(grouped(front) =~= Seq::empty());
        }
    }
}

/// Answers sorted into groups that agree.
fn group_by_result(outputs: &Vec<NamedOutput>, at: &Vec<usize>) -> (r: Vec<Vec<usize>>)
    requires
        positions(at@, outputs@.len()),
    ensures
        forall|k: int| 0 <= k < r@.len() ==> positions((#[trigger] r@[k])@, outputs@.len()),
        picked_groups(answers(outputs@), r@) == grouped(picked(answers(outputs@), at@)),
{
    let ghost outs = answers(outputs@);
    let ghost all = picked(outs, at@);
    let mut groups: Vec<Vec<usize>> = Vec::new();
    let mut i: usize = 0;
    assert(all.take(0) =~= Seq::empty());
    assert(picked_groups(outs, groups@) =~= grouped(all.take(0)));
    while i < at.len()
        invariant
            i <= at.len(),
            outs == answers(outputs@),
            all == picked(outs, at@),
            positions(at@, outputs@.len()),
            forall|k: int| 0 <= k < groups@.len() ==> positions((#[trigger] groups@[k])@, outputs@.len()),
            picked_groups(outs, groups@) == grouped(all.take(i as int)),
        decreases at.len() - i,
    {
        let ghost before = picked_groups(outs, groups@);
        let here: usize = at[i];
        let ghost x = outs[here as int];
        proof {
            lemma_groups_are_nonempty(all.take(i as int));
            assert(all.take(i + 1).drop_last() =~= all.take(i as int));
            assert(all.take(i + 1).last() == x);
        }
        let mut k: usize = 0;
        while k < groups.len() && !equivalent(
            &outputs[groups[k][0]].output,
            &outputs[here].output,
        )
            invariant
                k <= groups.len(),
                here < outputs.len(),
                outs == answers(outputs@),
                x == outs[here as int],
                before == picked_groups(outs, groups@),
                forall|k: int| 0 <= k < before.len() ==> (#[trigger] before[k]).len() > 0,
                forall|k: int|
                    0 <= k < groups@.len() ==> positions((#[trigger] groups@[k])@, outputs@.len()),
                group_for(before, x, 0) == group_for(before, x, k as int),
            ensures
                k == group_for(before, x, 0),
            decreases groups.len() - k,
        {
            assert(before[k as int].len() > 0);
            k += 1;
        }
        if k < groups.len() {
            let ghost old_group = groups@[k as int]@;
            groups[k].push(here);
            assert(picked(outs, groups@[k as int]@) =~= picked(outs, old_group).push(x));
            assert(picked_groups(outs, groups@) =~= before.update(k as int, before[k as int].push(x)));
        } else {
            let mut group: Vec<usize> = Vec::new();
            group.push(here);
            assert(picked(outs, group@) =~= seq![x]);
            groups.push(group);
            assert(picked_groups(outs, groups@) =~= before.push(seq![x]));
        }
        i += 1;
    }
    assert(all.take(all.len() as int) =~= all);
    groups
}

/// The names of the participants at some positions.
fn names_at(outputs: &Vec<NamedOutput>, at: &Vec<usize>) -> (r: Vec<String>)
    requires
        positions(at@, outputs@.len()),
    ensures
        texts(r@) == names_of(picked(answers(outputs@), at@)),
{
    let ghost outs = answers(outputs@);
    let mut names: Vec<String> = Vec::new();
    let mut i: usize = 0;
    while i < at.len()
        invariant
            i <= at.len(),
            outs == answers(outputs@),
            positions(at@, outputs@.len()),
            names.len() == i,
            forall|k: int| 0 <= k < i ==> (#[trigger] names@[k])@ == outs[at@[k] as int].implementation,
        decreases at.len() - i,
    {
        names.push(outputs[at[i]].implementation.clone());
        i += 1;
    }
    assert(texts(names@) =~= names_of(picked(outs, at@)));
    names
}

fn describe(outputs: &Vec<NamedOutput>) -> (r: String)
    ensures
        r@ == kinds_text(answers(outputs@)),
{
    let ghost outs = answers(outputs@);
    let ghost kinds = Seq::new(outs.len(), |i: int| outs[i].output.kind);
    let mut all: Vec<String> = Vec::new();
    let mut i: usize = 0;
    while i < outputs.len()
        invariant
            i <= outputs.len(),
            outs == answers(outputs@),
            all.len() == i,
            forall|k: int| 0 <= k < i ==> (#[trigger] all@[k])@ == outs[k].output.kind,
        decreases outputs.len() - i,
    {
        all.push(outputs[i].output.kind.to_owned());
        i += 1;
    }
    assert(texts(all@) =~= kinds);
    let sorted: Vec<String> = sort_strings(&all);
    let ghost s = texts(sorted@);
    let mut counts: Vec<(String, u64)> = Vec::new();
    let mut j: usize = 0;
    assert(s.take(0) =~= Seq::empty());
    while j < sorted.len()
        invariant
            j <= sorted.len(),
            s == texts(sorted@),
            counts.len() == runs(s.take(j as int)).len(),
            counts.len() <= j,
            forall|k: int|
                0 <= k < counts.len() ==> (#[trigger] counts@[k]).0@ == runs(s.take(j as int))[k].0
                    && counts@[k].1 == runs(s.take(j as int))[k].1 && counts@[k].1 <= j,
        decreases sorted.len() - j,
    {
        let ghost rest = runs(s.take(j as int));
        assert(s.take(j + 1).drop_last() =~= s.take(j as int));
        assert(s.take(j + 1).last() == sorted@[j as int]@);
        let n: usize = counts.len();
        if n > 0 && same_text(counts[n - 1].0.as_str(), sorted[j].as_str()) {
            let count: u64 = counts[n - 1].1 + 1;
            counts.set(n - 1, (sorted[j].clone(), count));
        } else {
            counts.push((sorted[j].clone(), 1));
        }
        j += 1;
    }
    assert(s.take(s.len() as int) =~= s);
    let mut parts: Vec<String> = Vec::new();
    let mut k: usize = 0;
    let ghost wanted = runs(s);
    while k < counts.len()
        invariant
            k <= counts.len(),
            counts.len() == wanted.len(),
            forall|k: int|
                0 <= k < counts.len() ==> (#[trigger] counts@[k]).0@ == wanted[k].0 && counts@[k].1
                    == wanted[k].1,
            parts.len() == k,
            forall|q: int|
                0 <= q < k ==> (#[trigger] parts@[q])@ == decimal_text(wanted[q].1) + "×"@
                    + wanted[q].0,
        decreases counts.len() - k,
    {
        let mut part: String = decimal(counts[k].1);
        part.append("×");
        part.append(counts[k].0.as_str());
        parts.push(part);
        k += 1;
    }
    assert(texts(parts@) =~= Seq::new(
        wanted.len(),
        |i: int| decimal_text(wanted[i].1) + "×"@ + wanted[i].0,
    ));
    join(&parts, ", ")
}

fn describe_disagreement(
    op: OpKind,
    outputs: &Vec<NamedOutput>,
    groups: &Vec<Vec<usize>>,
) -> (r: String)
    requires
        forall|k: int| 0 <= k < groups@.len() ==> positions((#[trigger] groups@[k])@, outputs@.len()),
        forall|k: int| 0 <= k < groups@.len() ==> (#[trigger] groups@[k])@.len() > 0,
    ensures
        r@ == disagreement_text(op, picked_groups(answers(outputs@), groups@)),
{
    let ghost outs = answers(outputs@);
    let ghost model = picked_groups(outs, groups@);
    let mut out: String = op.onnx_name().to_owned();
    out.append(": ");
    if groups.len() == 2 {
        let small: usize = if groups[0].len() < groups[1].len() { 0 } else { 1 };
        let large: usize = 1 - small;
        assert(model[0].len() == groups@[0]@.len() && model[1].len() == groups@[1]@.len());
        if groups[small].len() == 1 && groups[large].len() > 1 {
            let consensus: Vec<String> = sort_strings(&names_at(outputs, &groups[large]));
            out.append(outputs[groups[small][0]].implementation.as_str());
            out.append(" disagrees with ");
            out.append(decimal(groups[large].len() as u64).as_str());
            out.append(" others (");
            out.append(join(&consensus, ", ").as_str());
            out.append(")");
            assert(model[large as int] == picked(outs, groups@[large as int]@));
            assert(out@ =~= disagreement_text(op, model));
            return out;
        }
    }
    let mut factions: Vec<String> = Vec::new();
    let mut i: usize = 0;
    while i < groups.len()
        invariant
            i <= groups.len(),
            outs == answers(outputs@),
            model == picked_groups(outs, groups@),
            forall|k: int|
                0 <= k < groups@.len() ==> positions((#[trigger] groups@[k])@, outputs@.len()),
            factions.len() == i,
            forall|k: int| 0 <= k < i ==> (#[trigger] factions@[k])@ == faction_text(model[k], "+"@),
        decreases groups.len() - i,
    {
        let names: Vec<String> = sort_strings(&names_at(outputs, &groups[i]));
        assert(model[i as int] == picked(outs, groups@[i as int]@));
        factions.push(join(&names, "+"));
        i += 1;
    }
    assert(texts(factions@) =~= Seq::new(model.len(), |i: int| faction_text(model[i], "+"@)));
    let sorted: Vec<String> = sort_strings(&factions);
    out.append(decimal(groups.len() as u64).as_str());
    out.append(" distinct results — ");
    out.append(join(&sorted, " | ").as_str());
    assert(out@ =~= disagreement_text(op, model));
    out
}

fn render_tensor(t: &CanonTensor) -> (r: String)
    ensures
        r@ == rendered_tensor(t@),
{
    let n: usize = t.bits.len();
    let shown: usize = if n > 16 { 16 } else { n };
    let mut values: Vec<String> = Vec::new();
    let mut i: usize = 0;
    while i < shown
        invariant
            i <= shown <= t.bits.len(),
            values.len() == i,
            forall|k: int|
                0 <= k < i ==> (#[trigger] values@[k])@ == "0x"@ + hex_text(t@.bits[k] as nat, 16),
        decreases shown - i,
    {
        let mut value: String = "0x".to_owned();
        value.append(hex(t.bits[i], 16).as_str());
        values.push(value);
        i += 1;
    }
    assert(texts(values@) =~= Seq::new(
        shown as nat,
        |i: int| "0x"@ + hex_text(t@.bits[i] as nat, 16),
    ));
    let mut out: String = integers(&t.dims);
    out.append("[");
    out.append(join(&values, " ").as_str());
    if n > 16 {
        out.append(" ...[");
        out.append(decimal((n - 16) as u64).as_str());
        out.append(" more]");
    }
    out.append("]");
    assert(out@ =~= rendered_tensor(t@));
    out
}

fn render(canonical: &Canonical) -> (r: String)
    ensures
        r@ == rendered(canonical@),
{
    if !canonical.is_ok() {
        let mut out: String = canonical.kind.to_owned();
        out.append(": ");
        out.append(canonical.detail.as_str());
        return out;
    }
    let ghost model = canons_model(canonical.tensors@);
    let mut tensors: Vec<String> = Vec::new();
    let mut i: usize = 0;
    while i < canonical.tensors.len()
        invariant
            i <= canonical.tensors.len(),
            model == canons_model(canonical.tensors@),
            tensors.len() == i,
            forall|k: int| 0 <= k < i ==> (#[trigger] tensors@[k])@ == rendered_tensor(model[k]),
        decreases canonical.tensors.len() - i,
    {
        tensors.push(render_tensor(&canonical.tensors[i]));
        i += 1;
    }
    assert(texts(tensors@) =~= Seq::new(model.len(), |i: int| rendered_tensor(model[i])));
    join(&tensors, ", ")
}

fn divergence(case: &OnnxCase, outputs: &Vec<NamedOutput>, summary: String) -> (r: Verdict)
    ensures
        r@ == divergence_of(case@, answers(outputs@), summary@),
{
    let ghost outs = answers(outputs@);
    let mut shown: Vec<(String, String)> = Vec::new();
    let mut i: usize = 0;
    while i < outputs.len()
        invariant
            i <= outputs.len(),
            outs == answers(outputs@),
            shown.len() == i,
            forall|k: int|
                0 <= k < i ==> (#[trigger] shown@[k]).0@ == outs[k].implementation && shown@[k].1@
                    == rendered(outs[k].output),
        decreases outputs.len() - i,
    {
        shown.push((outputs[i].implementation.clone(), render(&outputs[i].output)));
        i += 1;
    }
    let r: Verdict = Verdict::Diverged(
        Divergence { input: describe_case(case), outputs: shown, summary },
    );
    assert(r@->outputs =~= divergence_of(case@, outs, summary@)->outputs);
    r
}

/// Whether every answer's elements can be counted on this machine.
pub open spec fn countable(outs: Seq<NamedModel>) -> bool {
    forall|i: int| 0 <= i < outs.len() ==> element_total((#[trigger] outs[i]).output) <= usize::MAX
}

fn count_elements(c: &Canonical) -> (r: usize)
    requires
        element_total(c@) <= usize::MAX,
    ensures
        r == element_total(c@),
{
    let mut total: usize = 0;
    let mut i: usize = 0;
    while i < c.tensors.len()
        invariant
            i <= c.tensors.len(),
            element_total(c@) <= usize::MAX,
            total == elements_upto(c@.tensors, i as nat),
        decreases c.tensors.len() - i,
    {
        proof {
            lemma_elements_grow(c@.tensors, (i + 1) as nat, c@.tensors.len());
            assert(c@.tensors[i as int] == c.tensors@[i as int]@);
        }
        total += c.tensors[i].bits.len();
        i += 1;
    }
    total
}

/// Judges what the participants answered.
#[derive(Debug, Clone, Copy)]
pub struct OnnxOracle;

impl OnnxOracle {
    /// The verdict on a case, given every participant's answer.
    pub fn check(&self, input: &OnnxCase, outputs: &Vec<NamedOutput>) -> (r: Verdict)
        requires
            countable(answers(outputs@)),
        ensures
            r@ == verdict_of(input@, answers(outputs@)),
    {
        let ghost outs = answers(outputs@);
        let broken: Vec<usize> = defects(outputs);
        if broken.len() > 0 {
            let ghost failing = outs.filter(is_defect());
            assert(picked(outs, broken@).len() == broken@.len());
            let names: String = join(&sort_strings(&names_at(outputs, &broken)), ", ");
            let mut summary: String = String::new();
            if broken.len() == outputs.len() {
                summary.append("every participant failed on ");
                summary.append(input.op.onnx_name());
                summary.append(" (");
                summary.append(names.as_str());
                summary.append(")");
            } else {
                summary.append(names.as_str());
                summary.append(" failed on ");
                summary.append(input.op.onnx_name());
                summary.append(" while others answered: ");
                summary.append(describe(outputs).as_str());
            }
            assert(summary@ =~= failure_text(input@.op, outs));
            return divergence(input, outputs, summary);
        }
        assert(picked(outs, broken@) =~= Seq::empty());
        let at: Vec<usize> = comparables(outputs);
        let ghost comparable = outs.filter(is_comparable());
        assert(comparable.len() == at@.len());
        if at.len() < 2 {
            return Verdict::Skipped(SkipReason::TooFewResults { available: at.len() });
        }
        let groups: Vec<Vec<usize>> = group_by_result(outputs, &at);
        proof {
            lemma_groups_are_nonempty(comparable);
            assert forall|k: int| 0 <= k < groups@.len() implies (#[trigger] groups@[k])@.len()
                > 0 by {
                assert(picked_groups(outs, groups@)[k].len() > 0);
            }
            assert(groups@.len() == grouped(comparable).len());
        }
        if groups.len() == 1 {
            let mut degenerate: bool = true;
            let mut i: usize = 0;
            while i < at.len()
                invariant
                    i <= at.len(),
                    outs == answers(outputs@),
                    positions(at@, outputs@.len()),
                    comparable == picked(outs, at@),
                    degenerate == forall|k: int|
                        0 <= k < i ==> (#[trigger] comparable[k]).output.degenerate(),
                decreases at.len() - i,
            {
                assert(comparable[i as int] == outputs@[at@[i as int] as int]@);
                if !outputs[at[i]].output.is_degenerate() {
                    degenerate = false;
                }
                i += 1;
            }
            assert(degenerate == all_degenerate(comparable));
            let first: &Canonical = &outputs[at[0]].output;
            assert(first@ == comparable[0].output);
            assert(outs[at@[0] as int] == comparable[0]);
            if degenerate {
                return Verdict::Skipped(
                    SkipReason::NothingComparable { elements: count_elements(first) },
                );
            }
            let mut licensed: usize = 0;
            let mut j: usize = 0;
            while j < at.len()
                invariant
                    j <= at.len(),
                    outs == answers(outputs@),
                    positions(at@, outputs@.len()),
                    comparable == picked(outs, at@),
                    comparable.len() >= 2,
                    first@ == comparable[0].output,
                    element_total(first@) <= usize::MAX,
                    licensed == most_licensed(comparable, j as nat),
                decreases at.len() - j,
            {
                assert(comparable[j as int] == outputs@[at@[j as int] as int]@);
                let other: &Canonical = &outputs[at[j]].output;
                if compare(first, other) == Agreement::ByLicense {
                    let here: usize = licensed_elements(first, other);
                    if here > licensed {
                        licensed = here;
                    }
                }
                j += 1;
            }
            if licensed > 0 {
                return Verdict::Skipped(SkipReason::NothingComparable { elements: licensed });
            }
            return Verdict::Agree;
        }
        let summary: String = describe_disagreement(input.op, outputs, &groups);
        divergence(input, outputs, summary)
    }
}

// ---- what a verdict guarantees ----

/// A crash or a timeout is always reported: no other answer excuses it, and no shortage of
/// answers hides it.
pub proof fn lemma_a_defect_is_never_excused(c: CaseModel, outs: Seq<NamedModel>, i: int)
    requires
        0 <= i < outs.len(),
        outs[i].output.defect(),
    ensures
        verdict_of(c, outs) is Diverged,
{
    outs.lemma_filter_contains(is_defect(), i);
    assert(outs.filter(is_defect()).contains(outs[i]));
}

/// Whether two answers can be compared and do not agree.
pub open spec fn opposed(a: NamedModel, b: NamedModel) -> bool {
    !a.output.unsupported() && !b.output.unsupported() && !agree(a.output, b.output)
}

/// Whether a case diverges, said without any order: somebody failed outright, or two answers
/// that can be compared do not agree.
pub open spec fn diverges(outs: Seq<NamedModel>) -> bool {
    ||| exists|i: int| 0 <= i < outs.len() && (#[trigger] outs[i]).output.defect()
    ||| exists|i: int, j: int|
        0 <= i < outs.len() && 0 <= j < outs.len() && opposed(#[trigger] outs[i], #[trigger] outs[j])
}

/// Every group but the first starts with an answer that does not agree with the first group's.
proof fn lemma_one_group_agrees(outs: Seq<NamedModel>)
    requires
        grouped(outs).len() <= 1,
    ensures
        forall|i: int| 0 <= i < outs.len() ==> agree(outs[0].output, (#[trigger] outs[i]).output),
    decreases outs.len(),
{
    if outs.len() > 0 {
        let front = outs.drop_last();
        lemma_groups_are_nonempty(front);
        let groups = grouped(front);
        let x = outs.last();
        if front.len() == 0 {
            lemma_agreement_is_reflexive(x.output);
        } else {
            lemma_group_for(groups, x, 0);
            assert(groups.len() == 1 && group_for(groups, x, 0) == 0);
            lemma_one_group_agrees(front);
            assert(front[0] == outs[0]);
            assert forall|i: int| 0 <= i < outs.len() implies agree(
                outs[0].output,
                (#[trigger] outs[i]).output,
            ) by {
                if i < front.len() {
                    assert(front[i] == outs[i]);
                }
            }
        }
    }
}

proof fn lemma_agreeing_answers_form_one_group(outs: Seq<NamedModel>)
    requires
        forall|i: int, j: int|
            0 <= i < outs.len() && 0 <= j < outs.len() ==> agree(
                (#[trigger] outs[i]).output,
                (#[trigger] outs[j]).output,
            ),
    ensures
        grouped(outs).len() <= 1,
    decreases outs.len(),
{
    if outs.len() > 0 {
        let front = outs.drop_last();
        assert forall|i: int, j: int|
            0 <= i < front.len() && 0 <= j < front.len() implies agree(
            (#[trigger] front[i]).output,
            (#[trigger] front[j]).output,
        ) by {
            assert(agree(outs[i].output, outs[j].output));
        }
        lemma_agreeing_answers_form_one_group(front);
        lemma_groups_are_nonempty(front);
        if front.len() > 0 {
            assert(front[0] == outs[0]);
            assert(agree(outs[0].output, outs[outs.len() - 1].output));
            assert(group_for(grouped(front), outs.last(), 0) == 0);
        }
    }
}

/// A case is reported as diverging exactly when somebody failed outright or two answers that can
/// be compared do not agree. The statement names no order, so neither the order of the
/// participants nor which of them came first can turn a divergence into an agreement.
pub proof fn lemma_divergence_does_not_depend_on_order(c: CaseModel, outs: Seq<NamedModel>)
    ensures
        verdict_of(c, outs) is Diverged <==> diverges(outs),
{
    let broken = outs.filter(is_defect());
    let comparable = outs.filter(is_comparable());
    let groups = grouped(comparable);
    if exists|i: int| 0 <= i < outs.len() && (#[trigger] outs[i]).output.defect() {
        let i = choose|i: int| 0 <= i < outs.len() && (#[trigger] outs[i]).output.defect();
        lemma_a_defect_is_never_excused(c, outs, i);
    } else {
        if broken.len() > 0 {
            outs.lemma_filter_pred(is_defect(), 0);
            assert(broken.contains(broken[0]));
            outs.lemma_filter_contains_rev(is_defect(), broken[0]);
            assert(false);
        }
        lemma_groups_are_nonempty(comparable);
        if exists|i: int, j: int|
            0 <= i < outs.len() && 0 <= j < outs.len() && opposed(
                #[trigger] outs[i],
                #[trigger] outs[j],
            ) {
            let (i, j) = choose|i: int, j: int|
                0 <= i < outs.len() && 0 <= j < outs.len() && opposed(
                    #[trigger] outs[i],
                    #[trigger] outs[j],
                );
            outs.lemma_filter_contains(is_comparable(), i);
            outs.lemma_filter_contains(is_comparable(), j);
            let a = choose|a: int| 0 <= a < comparable.len() && comparable[a] == outs[i];
            let b = choose|b: int| 0 <= b < comparable.len() && comparable[b] == outs[j];
            if a == b {
                lemma_agreement_is_reflexive(comparable[a].output);
            }
            if groups.len() <= 1 {
                lemma_one_group_agrees(comparable);
                lemma_agreement_is_symmetric(comparable[0].output, comparable[a].output);
                lemma_agreement_is_transitive(
                    comparable[a].output,
                    comparable[0].output,
                    comparable[b].output,
                );
            }
            assert(groups.len() > 1);
            assert(comparable.len() >= 2);
        } else {
            assert forall|a: int, b: int|
                0 <= a < comparable.len() && 0 <= b < comparable.len() implies agree(
                (#[trigger] comparable[a]).output,
                (#[trigger] comparable[b]).output,
            ) by {
                outs.lemma_filter_pred(is_comparable(), a);
                outs.lemma_filter_pred(is_comparable(), b);
                assert(comparable.contains(comparable[a]));
                assert(comparable.contains(comparable[b]));
                outs.lemma_filter_contains_rev(is_comparable(), comparable[a]);
                outs.lemma_filter_contains_rev(is_comparable(), comparable[b]);
                let i = choose|i: int| 0 <= i < outs.len() && outs[i] == comparable[a];
                let j = choose|j: int| 0 <= j < outs.len() && outs[j] == comparable[b];
                assert(!opposed(outs[i], outs[j]));
            }
            lemma_agreeing_answers_form_one_group(comparable);
        }
    }
}

/// A declared gap changes nothing: adding a participant that does not implement the operator
/// turns no agreement into a divergence and hides none.
pub proof fn lemma_a_gap_is_not_a_disagreement(
    c: CaseModel,
    outs: Seq<NamedModel>,
    gap: NamedModel,
)
    requires
        gap.output.unsupported(),
    ensures
        verdict_of(c, outs.push(gap)) is Diverged <==> verdict_of(c, outs) is Diverged,
        verdict_of(c, outs) !is Diverged ==> verdict_of(c, outs.push(gap)) == verdict_of(c, outs),
{
    reveal_strlit("unsupported");
    reveal_strlit("crashed");
    reveal_strlit("timed-out");
    assert(!gap.output.defect()) by {
        assert("unsupported"@.len() == 11);
        assert("crashed"@.len() == 7);
        assert("timed-out"@.len() == 9);
    }
    outs.lemma_filter_push(gap, is_defect());
    outs.lemma_filter_push(gap, is_comparable());
}

proof fn lemma_most_licensed(outs: Seq<NamedModel>, n: nat, k: int)
    requires
        0 <= k < n <= outs.len(),
        most_licensed(outs, n) == 0,
    ensures
        agreement(outs[0].output, outs[k].output) != Agreement::ByLicense,
    decreases n,
{
    if k < n - 1 {
        lemma_most_licensed(outs, (n - 1) as nat, k);
    } else if agreement(outs[0].output, outs[k].output) == Agreement::ByLicense {
        lemma_a_license_is_counted(outs[0].output, outs[k].output);
    }
}

/// An agreement is evidence: nobody failed, at least two participants answered, they did not all
/// answer with nothing, and every answer that can be compared is the same bit for bit.
pub proof fn lemma_agreement_is_evidence(c: CaseModel, outs: Seq<NamedModel>)
    requires
        verdict_of(c, outs) is Agree,
    ensures
        !diverges(outs),
        outs.filter(is_comparable()).len() >= 2,
        !all_degenerate(outs.filter(is_comparable())),
        forall|i: int, j: int|
            0 <= i < outs.filter(is_comparable()).len() && 0 <= j < outs.filter(
                is_comparable(),
            ).len() ==> agreement(
                (#[trigger] outs.filter(is_comparable())[i]).output,
                (#[trigger] outs.filter(is_comparable())[j]).output,
            ) == Agreement::Exactly,
{
    lemma_divergence_does_not_depend_on_order(c, outs);
    let comparable = outs.filter(is_comparable());
    lemma_one_group_agrees(comparable);
    assert forall|i: int, j: int|
        0 <= i < comparable.len() && 0 <= j < comparable.len() implies agreement(
        (#[trigger] comparable[i]).output,
        (#[trigger] comparable[j]).output,
    ) == Agreement::Exactly by {
        lemma_most_licensed(comparable, comparable.len(), i);
        lemma_most_licensed(comparable, comparable.len(), j);
        assert(agree(comparable[0].output, comparable[i].output));
        assert(agree(comparable[0].output, comparable[j].output));
        lemma_agreement_is_symmetric(comparable[0].output, comparable[i].output);
        lemma_agreement_is_transitive(
            comparable[i].output,
            comparable[0].output,
            comparable[j].output,
        );
    }
}

// ---- the order in which the answers came ----

/// The answers that agree with a given one.
pub open spec fn like(x: NamedModel) -> spec_fn(NamedModel) -> bool {
    |o: NamedModel| agree(x.output, o.output)
}

/// The answers that do not.
pub open spec fn unlike(x: NamedModel) -> spec_fn(NamedModel) -> bool {
    |o: NamedModel| !agree(x.output, o.output)
}

/// Who stands in each group, names in order.
pub open spec fn factions(groups: Seq<Seq<NamedModel>>) -> Seq<Seq<Seq<char>>> {
    Seq::new(groups.len(), |i: int| sort_texts(names_of(groups[i])))
}

proof fn lemma_filter_keeps_the_first(s: Seq<NamedModel>, f: spec_fn(NamedModel) -> bool)
    requires
        s.len() > 0,
        f(s[0]),
    ensures
        s.filter(f).len() > 0,
        s.filter(f)[0] == s[0],
    decreases s.len(),
{
    reveal(Seq::filter);
    let front = s.drop_last();
    assert(s =~= front.push(s.last()));
    front.lemma_filter_push(s.last(), f);
    if front.len() > 0 {
        lemma_filter_keeps_the_first(front, f);
    } else {
        assert(front.filter(f) =~= Seq::empty());
    }
}

proof fn lemma_filter_twice(
    s: Seq<NamedModel>,
    f: spec_fn(NamedModel) -> bool,
    g: spec_fn(NamedModel) -> bool,
    h: spec_fn(NamedModel) -> bool,
)
    requires
        forall|o: NamedModel| #[trigger] h(o) == (f(o) && g(o)),
    ensures
        s.filter(f).filter(g) == s.filter(h),
    decreases s.len(),
{
    reveal(Seq::filter);
    if s.len() > 0 {
        let front = s.drop_last();
        let x = s.last();
        assert(s =~= front.push(x));
        lemma_filter_twice(front, f, g, h);
        front.lemma_filter_push(x, f);
        front.lemma_filter_push(x, h);
        front.filter(f).lemma_filter_push(x, g);
        assert(h(x) == (f(x) && g(x)));
    } else {
        assert(s.filter(f) =~= s);
        assert(s.filter(h) =~= s);
        assert(s.filter(g) =~= s);
    }
}

proof fn lemma_filter_shortens(s: Seq<NamedModel>, f: spec_fn(NamedModel) -> bool, k: int)
    requires
        0 <= k < s.len(),
        !f(s[k]),
    ensures
        s.filter(f).len() < s.len(),
    decreases s.len(),
{
    let front = s.drop_last();
    let x = s.last();
    assert(s =~= front.push(x));
    front.lemma_filter_push(x, f);
    front.lemma_filter_len(f);
    if k < front.len() {
        lemma_filter_shortens(front, f, k);
    }
}

proof fn lemma_group_for_skips(groups: Seq<Seq<NamedModel>>, x: NamedModel, k: int)
    requires
        0 < groups.len(),
        0 <= k < groups.len(),
    ensures
        group_for(groups, x, k + 1) == 1 + group_for(groups.skip(1), x, k),
    decreases groups.len() - k,
{
    if k + 1 < groups.len() {
        assert(groups.skip(1)[k] == groups[k + 1]);
        if !agree(groups[k + 1][0].output, x.output) {
            lemma_group_for_skips(groups, x, k + 1);
        }
    }
}

/// The first group holds all the answers that agree with the first, and the other groups are
/// those of the answers that do not.
proof fn lemma_the_first_group(s: Seq<NamedModel>)
    requires
        s.len() > 0,
    ensures
        grouped(s) == seq![s.filter(like(s[0]))] + grouped(s.filter(unlike(s[0]))),
    decreases s.len(),
{
    let x = s[0];
    let front = s.drop_last();
    let z = s.last();
    assert(s =~= front.push(z));
    front.lemma_filter_push(z, like(x));
    front.lemma_filter_push(z, unlike(x));
    lemma_agreement_is_reflexive(x.output);
    if front.len() == 0 {
        reveal(Seq::filter);
        assert(front.filter(like(x)) =~= Seq::empty());
        assert(front.filter(unlike(x)) =~= Seq::empty());
        assert(grouped(front) =~= Seq::empty());
        assert(grouped(s) =~= seq![seq![z]]);
        assert(s.filter(like(x)) =~= seq![z]);
        assert(grouped(s.filter(unlike(x))) =~= Seq::empty());
        assert(grouped(s) =~= seq![s.filter(like(x))] + grouped(s.filter(unlike(x))));
    } else {
        assert(front[0] == x);
        lemma_the_first_group(front);
        lemma_filter_keeps_the_first(front, like(x));
        let groups = grouped(front);
        let first = front.filter(like(x));
        let others = front.filter(unlike(x));
        let rest = grouped(others);
        assert(groups[0] == first);
        assert(groups.skip(1) =~= rest);
        if agree(x.output, z.output) {
            assert(group_for(groups, z, 0) == 0);
            assert(grouped(s) =~= seq![first.push(z)] + rest);
        } else {
            lemma_group_for_skips(groups, z, 0);
            lemma_group_for(rest, z, 0);
            let k = group_for(rest, z, 0);
            assert(group_for(groups, z, 0) == k + 1);
            assert(s.filter(unlike(x)) == others.push(z));
            assert(others.push(z).drop_last() =~= others);
            if k < rest.len() {
                assert(groups[k + 1] == rest[k]);
                assert(grouped(s) =~= seq![first] + rest.update(k, rest[k].push(z)));
            } else {
                assert(grouped(s) =~= seq![first] + rest.push(seq![z]));
            }
        }
    }
}

proof fn lemma_factions_of_the_first_group(s: Seq<NamedModel>)
    requires
        s.len() > 0,
    ensures
        factions(grouped(s)).to_multiset() == factions(
            grouped(s.filter(unlike(s[0]))),
        ).to_multiset().insert(sort_texts(names_of(s.filter(like(s[0]))))),
{
    lemma_the_first_group(s);
    let key = sort_texts(names_of(s.filter(like(s[0]))));
    let rest = factions(grouped(s.filter(unlike(s[0]))));
    assert(factions(grouped(s)) =~= rest.insert(0, key));
    vstd::seq_lib::to_multiset_insert(rest, 0, key);
}

/// Any answer may be taken for the first: those that agree with it form one group, and the other
/// groups are those of the rest.
proof fn lemma_any_group_first(s: Seq<NamedModel>, k: int)
    requires
        0 <= k < s.len(),
    ensures
        factions(grouped(s)).to_multiset() == factions(
            grouped(s.filter(unlike(s[k]))),
        ).to_multiset().insert(sort_texts(names_of(s.filter(like(s[k]))))),
    decreases s.len(),
{
    broadcast use vstd::multiset::group_multiset_axioms;

    let x = s[0];
    let y = s[k];
    lemma_factions_of_the_first_group(s);
    lemma_agreement_is_reflexive(x.output);
    lemma_agreement_is_symmetric(x.output, y.output);
    if agree(x.output, y.output) {
        assert forall|o: NamedModel| #[trigger] like(x)(o) == like(y)(o) by {
            if agree(x.output, o.output) {
                lemma_agreement_is_transitive(y.output, x.output, o.output);
            }
            if agree(y.output, o.output) {
                lemma_agreement_is_transitive(x.output, y.output, o.output);
            }
        }
        assert forall|o: NamedModel| #[trigger] unlike(x)(o) == unlike(y)(o) by {
            assert(like(x)(o) == like(y)(o));
        }
        assert(like(x) =~= like(y));
        assert(unlike(x) =~= unlike(y));
    } else {
        let away_x = s.filter(unlike(x));
        let away_y = s.filter(unlike(y));
        assert forall|o: NamedModel| #[trigger] like(y)(o) implies unlike(x)(o) by {
            if agree(x.output, o.output) {
                lemma_agreement_is_symmetric(y.output, o.output);
                lemma_agreement_is_transitive(x.output, o.output, y.output);
            }
        }
        assert forall|o: NamedModel| #[trigger] like(x)(o) implies unlike(y)(o) by {
            if agree(y.output, o.output) {
                lemma_agreement_is_symmetric(y.output, o.output);
                lemma_agreement_is_transitive(x.output, o.output, y.output);
            }
        }
        let neither = |o: NamedModel| unlike(x)(o) && unlike(y)(o);
        assert forall|o: NamedModel| #[trigger] like(y)(o) == (unlike(x)(o) && like(y)(o)) by {}
        assert forall|o: NamedModel| #[trigger] like(x)(o) == (unlike(y)(o) && like(x)(o)) by {}
        lemma_filter_twice(s, unlike(x), like(y), like(y));
        lemma_filter_twice(s, unlike(x), unlike(y), neither);
        lemma_filter_twice(s, unlike(y), like(x), like(x));
        lemma_filter_twice(s, unlike(y), unlike(x), neither);
        lemma_filter_shortens(s, unlike(x), 0);
        s.lemma_filter_contains(unlike(x), k);
        let j = choose|j: int| 0 <= j < away_x.len() && away_x[j] == y;
        lemma_any_group_first(away_x, j);
        lemma_filter_keeps_the_first(s, unlike(y));
        lemma_factions_of_the_first_group(away_y);
        let base = factions(grouped(s.filter(neither))).to_multiset();
        let key_x = sort_texts(names_of(s.filter(like(x))));
        let key_y = sort_texts(names_of(s.filter(like(y))));
        assert(base.insert(key_y).insert(key_x) =~= base.insert(key_x).insert(key_y));
    }
}

proof fn lemma_names_forget_the_order(a: Seq<NamedModel>, b: Seq<NamedModel>)
    requires
        a.to_multiset() == b.to_multiset(),
    ensures
        sort_texts(names_of(a)) == sort_texts(names_of(b)),
{
    let name = |o: NamedModel| o.implementation;
    lemma_mapping_forgets_the_order(a, b, name);
    assert(names_of(a) =~= Seq::new(a.len(), |i: int| name(a[i])));
    assert(names_of(b) =~= Seq::new(b.len(), |i: int| name(b[i])));
    lemma_sorting_forgets_the_order(names_of(a), names_of(b));
}

proof fn lemma_kinds_forget_the_order(a: Seq<NamedModel>, b: Seq<NamedModel>)
    requires
        a.to_multiset() == b.to_multiset(),
    ensures
        kinds_text(a) == kinds_text(b),
{
    let kind = |o: NamedModel| o.output.kind;
    lemma_mapping_forgets_the_order(a, b, kind);
    let ka = Seq::new(a.len(), |i: int| a[i].output.kind);
    let kb = Seq::new(b.len(), |i: int| b[i].output.kind);
    assert(ka =~= Seq::new(a.len(), |i: int| kind(a[i])));
    assert(kb =~= Seq::new(b.len(), |i: int| kind(b[i])));
    lemma_sorting_forgets_the_order(ka, kb);
}

/// Who stands with whom does not depend on the order.
proof fn lemma_factions_forget_the_order(a: Seq<NamedModel>, b: Seq<NamedModel>)
    requires
        a.to_multiset() == b.to_multiset(),
    ensures
        factions(grouped(a)).to_multiset() == factions(grouped(b)).to_multiset(),
    decreases a.len(),
{
    a.to_multiset_ensures();
    b.to_multiset_ensures();
    if a.len() == 0 {
        assert(a =~= b);
    } else {
        let y = b[0];
        assert(b.contains(y));
        assert(b.to_multiset().count(y) > 0);
        assert(a.to_multiset().count(y) > 0);
        let k = choose|k: int| 0 <= k < a.len() && a[k] == y;
        lemma_any_group_first(a, k);
        lemma_any_group_first(b, 0);
        lemma_filtering_forgets_the_order(a, b, like(y));
        lemma_filtering_forgets_the_order(a, b, unlike(y));
        lemma_names_forget_the_order(a.filter(like(y)), b.filter(like(y)));
        lemma_agreement_is_reflexive(y.output);
        lemma_filter_shortens(a, unlike(y), k);
        lemma_factions_forget_the_order(a.filter(unlike(y)), b.filter(unlike(y)));
    }
}

/// A disagreement told from who stands with whom alone.
spec fn told(op: OpKind, f: Seq<Seq<Seq<char>>>) -> Seq<char> {
    let smaller_first = f.len() == 2 && f[0].len() < f[1].len();
    let small = if smaller_first { f[0] } else { f[1] };
    let large = if smaller_first { f[1] } else { f[0] };
    if f.len() == 2 && small.len() == 1 && large.len() > 1 {
        op.text() + ": "@ + small[0] + " disagrees with "@ + decimal_text(large.len())
            + " others ("@ + join_text(large, ", "@) + ")"@
    } else {
        op.text() + ": "@ + decimal_text(f.len()) + " distinct results — "@ + join_text(
            sort_texts(Seq::new(f.len(), |i: int| join_text(f[i], "+"@))),
            " | "@,
        )
    }
}

proof fn lemma_sorting_keeps_the_length(s: Seq<Seq<char>>)
    ensures
        sort_texts(s).len() == s.len(),
        s.len() == 1 ==> sort_texts(s)[0] == s[0],
{
    lemma_text_order();
    s.lemma_sort_by_ensures(text_order());
    s.to_multiset_ensures();
    sort_texts(s).to_multiset_ensures();
    if s.len() == 1 {
        assert(sort_texts(s).contains(sort_texts(s)[0]));
        assert(sort_texts(s).to_multiset().count(sort_texts(s)[0]) > 0);
        assert(s.to_multiset().count(sort_texts(s)[0]) > 0);
    }
}

proof fn lemma_told_from_factions(op: OpKind, groups: Seq<Seq<NamedModel>>)
    ensures
        disagreement_text(op, groups) == told(op, factions(groups)),
{
    let f = factions(groups);
    assert forall|i: int| 0 <= i < groups.len() implies (#[trigger] f[i]).len() == groups[i].len()
        && (groups[i].len() == 1 ==> f[i][0] == groups[i][0].implementation) by {
        lemma_sorting_keeps_the_length(names_of(groups[i]));
    }
    assert(Seq::new(groups.len(), |i: int| faction_text(groups[i], "+"@)) =~= Seq::new(
        f.len(),
        |i: int| join_text(f[i], "+"@),
    ));
    if groups.len() == 2 {
        assert(f[0].len() == groups[0].len());
        assert(f[1].len() == groups[1].len());
    }
}

proof fn lemma_telling_forgets_the_order(
    op: OpKind,
    f: Seq<Seq<Seq<char>>>,
    g: Seq<Seq<Seq<char>>>,
)
    requires
        f.to_multiset() == g.to_multiset(),
    ensures
        told(op, f) == told(op, g),
{
    broadcast use vstd::multiset::group_multiset_axioms;

    f.to_multiset_ensures();
    g.to_multiset_ensures();
    let text = |k: Seq<Seq<char>>| join_text(k, "+"@);
    lemma_mapping_forgets_the_order(f, g, text);
    let tf = Seq::new(f.len(), |i: int| join_text(f[i], "+"@));
    let tg = Seq::new(g.len(), |i: int| join_text(g[i], "+"@));
    assert(tf =~= Seq::new(f.len(), |i: int| text(f[i])));
    assert(tg =~= Seq::new(g.len(), |i: int| text(g[i])));
    lemma_sorting_forgets_the_order(tf, tg);
    if f.len() == 2 {
        assert(f.contains(f[0]));
        assert(f.to_multiset().count(f[0]) > 0);
        assert(g.to_multiset().count(f[0]) > 0);
        let k = choose|k: int| 0 <= k < g.len() && g[k] == f[0];
        assert(f.remove(0).to_multiset() == g.remove(k).to_multiset());
        let rf = f.remove(0);
        let rg = g.remove(k);
        rf.to_multiset_ensures();
        rg.to_multiset_ensures();
        assert(rf.contains(rf[0]));
        assert(rf.to_multiset().count(rf[0]) > 0);
        assert(rg.to_multiset().count(rf[0]) > 0);
        assert(rg.contains(rf[0]));
        assert(rg[0] == rf[0]);
        assert(rf[0] == f[1]);
        assert(rg[0] == g[1 - k]);
    }
}

/// The order in which the participants answered says nothing: the same answers in any other
/// order are a divergence as well, and the divergence is summed up in the same words.
pub proof fn lemma_the_order_of_answers_is_not_told(
    c: CaseModel,
    a: Seq<NamedModel>,
    b: Seq<NamedModel>,
)
    requires
        a.to_multiset() == b.to_multiset(),
    ensures
        verdict_of(c, a) is Diverged <==> verdict_of(c, b) is Diverged,
        verdict_of(c, a) is Diverged ==> verdict_of(c, a)->summary == verdict_of(c, b)->summary,
{
    a.to_multiset_ensures();
    b.to_multiset_ensures();
    let (broken_a, broken_b) = (a.filter(is_defect()), b.filter(is_defect()));
    let (able_a, able_b) = (a.filter(is_comparable()), b.filter(is_comparable()));
    lemma_filtering_forgets_the_order(a, b, is_defect());
    lemma_filtering_forgets_the_order(a, b, is_comparable());
    broken_a.to_multiset_ensures();
    broken_b.to_multiset_ensures();
    able_a.to_multiset_ensures();
    able_b.to_multiset_ensures();
    lemma_names_forget_the_order(broken_a, broken_b);
    lemma_kinds_forget_the_order(a, b);
    lemma_factions_forget_the_order(able_a, able_b);
    let (fa, fb) = (factions(grouped(able_a)), factions(grouped(able_b)));
    fa.to_multiset_ensures();
    fb.to_multiset_ensures();
    lemma_told_from_factions(c.op, grouped(able_a));
    lemma_told_from_factions(c.op, grouped(able_b));
    lemma_telling_forgets_the_order(c.op, fa, fb);
}

} // verus!
