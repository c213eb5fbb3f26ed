//! How a result is told: who fell, who stands against whom, what was forgiven, and how answers are
//! shown.

use vstd::prelude::*;

use crate::case::{CaseModel, ElemType, OpKind};
use crate::describe::case_text;
use crate::evidence_laws::below;
use crate::judging_laws::{double_nan, lemma_elements_agree_by_their_bits, single_nan};
use crate::normalize::{agree, agreement, element_total, licensed_count, licensed_in, licensed_upto};
use crate::normalize::{normal_form, Agreement, CanonModel, CanonicalModel};
use crate::oracle::{disagreement_text, failure_text, group_for, grouped, is_defect, kinds_text};
use crate::oracle::{most_licensed, rendered, rendered_tensor, runs, verdict_of, NamedModel};
use crate::oracle::{SkipReason, VerdictModel};
use crate::order::sort_texts;
use crate::outcome::OutcomeModel;
use crate::text::{clip, decimal_text, hex_text, integers_text, join_text, last_line};

verus! {

// ---- what was forgiven ----

/// Whether two patterns of one type differ and are both undefined.
pub open spec fn forgiven(elem: ElemType, left: u64, right: u64) -> bool {
    left != right && ((elem == ElemType::F32 && single_nan(left as int % 0x1_0000_0000) && single_nan(
        right as int % 0x1_0000_0000,
    )) || (elem == ElemType::F64 && double_nan(left as int) && double_nan(right as int)))
}

/// What is forgiven of two tensors is counted element by element.
pub proof fn lemma_forgiven_elements_are_counted(a: CanonModel, b: CanonModel, n: nat)
    requires
        a.elem_type == ElemType::F32 ==> forall|e: int|
            0 <= e < n ==> (#[trigger] a.bits[e]) < 0x1_0000_0000 && b.bits[e] < 0x1_0000_0000,
    ensures
        licensed_in(a, b, n) == below(n).filter(
            |e: int| forgiven(a.elem_type, a.bits[e], b.bits[e]),
        ).len(),
    decreases n,
{
    reveal(Seq::filter);
    if n > 0 {
        let f = |e: int| forgiven(a.elem_type, a.bits[e], b.bits[e]);
        lemma_forgiven_elements_are_counted(a, b, (n - 1) as nat);
        lemma_elements_agree_by_their_bits(a.elem_type, a.bits[n - 1], b.bits[n - 1]);
        assert(below(n) =~= below((n - 1) as nat).push(n - 1));
        below((n - 1) as nat).lemma_filter_push(n - 1, f);
        if a.elem_type == ElemType::F32 {
            assert(a.bits[n - 1] < 0x1_0000_0000 && b.bits[n - 1] < 0x1_0000_0000);
        }
    }
}

/// What is forgiven of two answers is forgiven of their tensors, each with its counterpart.
pub proof fn lemma_forgiven_tensors_add_up(
    left: CanonicalModel,
    right: CanonicalModel,
    a: CanonModel,
    b: CanonModel,
)
    requires
        left.tensors.len() == right.tensors.len(),
        a.elem_type == b.elem_type,
        a.bits.len() == b.bits.len(),
    ensures
        licensed_count(
            (CanonicalModel { tensors: left.tensors.push(a), ..left }),
            (CanonicalModel { tensors: right.tensors.push(b), ..right }),
        ) == licensed_count(left, right) + licensed_in(a, b, a.bits.len()),
        left.tensors.len() == 0 ==> licensed_count(left, right) == 0,
        element_total((CanonicalModel { tensors: left.tensors.push(a), ..left })) == element_total(
            left,
        ) + a.bits.len(),
{
    lemma_licensed_of_front(left.tensors, right.tensors, a, b, left.tensors.len());
    lemma_elements_of_front(left.tensors, a, left.tensors.len());
}

proof fn lemma_licensed_of_front(
    left: Seq<CanonModel>,
    right: Seq<CanonModel>,
    a: CanonModel,
    b: CanonModel,
    n: nat,
)
    requires
        n <= left.len(),
        n <= right.len(),
    ensures
        licensed_upto(left.push(a), right.push(b), n) == licensed_upto(left, right, n),
    decreases n,
{
    if n > 0 {
        lemma_licensed_of_front(left, right, a, b, (n - 1) as nat);
    }
}

proof fn lemma_elements_of_front(tensors: Seq<CanonModel>, a: CanonModel, n: nat)
    requires
        n <= tensors.len(),
    ensures
        crate::normalize::elements_upto(tensors.push(a), n) == crate::normalize::elements_upto(
            tensors,
            n,
        ),
    decreases n,
{
    if n > 0 {
        lemma_elements_of_front(tensors, a, (n - 1) as nat);
    }
}

/// What is reported as forgiven is the most that any answer was forgiven against the first.
pub proof fn lemma_the_most_that_was_forgiven(outs: Seq<NamedModel>, n: nat, i: int)
    requires
        0 <= i < n,
    ensures
        agreement(outs[0].output, outs[i].output) == Agreement::ByLicense ==> licensed_count(
            outs[0].output,
            outs[i].output,
        ) <= most_licensed(outs, n),
        most_licensed(outs, n) > 0 ==> exists|k: int|
            0 <= k < n && agreement(outs[0].output, (#[trigger] outs[k]).output)
                == Agreement::ByLicense && licensed_count(outs[0].output, outs[k].output)
                == most_licensed(outs, n),
    decreases n,
{
    if n > 1 {
        if i < n - 1 {
            lemma_the_most_that_was_forgiven(outs, (n - 1) as nat, i);
        } else {
            lemma_the_most_that_was_forgiven(outs, (n - 1) as nat, 0);
        }
        let rest = most_licensed(outs, (n - 1) as nat);
        if most_licensed(outs, n) > 0 {
            if most_licensed(outs, n) == rest {
                let k = choose|k: int|
                    0 <= k < n - 1 && agreement(outs[0].output, (#[trigger] outs[k]).output)
                        == Agreement::ByLicense && licensed_count(outs[0].output, outs[k].output)
                        == rest;
                assert(agreement(outs[0].output, outs[k].output) == Agreement::ByLicense);
            } else {
                assert(agreement(outs[0].output, outs[n - 1].output) == Agreement::ByLicense);
            }
        }
    } else {
        reveal_with_fuel(most_licensed, 2);
        assert(i == 0);
        if most_licensed(outs, n) > 0 {
            assert(agreement(outs[0].output, outs[0].output) == Agreement::ByLicense);
        }
    }
}

// ---- who stands with whom ----

/// How many answers some groups hold together.
pub open spec fn members(groups: Seq<Seq<NamedModel>>) -> nat
    decreases groups.len(),
{
    if groups.len() == 0 {
        0
    } else {
        members(groups.drop_last()) + groups.last().len()
    }
}

proof fn lemma_one_more_member(groups: Seq<Seq<NamedModel>>, k: int, x: NamedModel)
    requires
        0 <= k < groups.len(),
    ensures
        members(groups.update(k, groups[k].push(x))) == members(groups) + 1,
    decreases groups.len(),
{
    let more = groups.update(k, groups[k].push(x));
    if k == groups.len() - 1 {
        assert(more.drop_last() =~= groups.drop_last());
    } else {
        lemma_one_more_member(groups.drop_last(), k, x);
        assert(more.drop_last() =~= groups.drop_last().update(k, groups[k].push(x)));
    }
}

proof fn lemma_group_found(groups: Seq<Seq<NamedModel>>, x: NamedModel, at: int)
    requires
        0 <= at <= groups.len(),
    ensures
        at <= group_for(groups, x, at) <= groups.len(),
        group_for(groups, x, at) < groups.len() ==> agree(
            groups[group_for(groups, x, at)][0].output,
            x.output,
        ),
        forall|k: int|
            at <= k < group_for(groups, x, at) ==> !agree((#[trigger] groups[k])[0].output, x.output),
    decreases groups.len() - at,
{
    if at < groups.len() && !agree(groups[at][0].output, x.output) {
        lemma_group_found(groups, x, at + 1);
    }
}

/// Everybody stands in one group: the groups hold as many as there are answers, none is empty, a
/// member agrees with the first of its group, and the first of a group with the first of none
/// before it.
pub proof fn lemma_everybody_stands_in_a_group(outs: Seq<NamedModel>, a: int, b: int, i: int)
    ensures
        members(grouped(outs)) == outs.len(),
        0 <= a < grouped(outs).len() ==> grouped(outs)[a].len() > 0,
        0 <= a < grouped(outs).len() && 0 < i < grouped(outs)[a].len() ==> agree(
            grouped(outs)[a][0].output,
            grouped(outs)[a][i].output,
        ),
        0 <= a < b < grouped(outs).len() ==> !agree(
            grouped(outs)[a][0].output,
            grouped(outs)[b][0].output,
        ),
    decreases outs.len(),
{
    if outs.len() > 0 {
        let front = outs.drop_last();
        let x = outs.last();
        let groups = grouped(front);
        lemma_everybody_stands_in_a_group(front, a, b, i);
        lemma_group_found(groups, x, 0);
        let k = group_for(groups, x, 0);
        let all = grouped(outs);
        if k < groups.len() {
            lemma_one_more_member(groups, k, x);
            lemma_everybody_stands_in_a_group(front, k, b, i);
            assert(all[k] == groups[k].push(x));
            assert(all[k][0] == groups[k][0]);
        } else {
            assert(all.drop_last() =~= groups);
            assert(seq![x].len() == 1);
        }
    }
}

/// A divergence shows the case, and every answer under its participant's name in the order in which
/// they came. It says who failed where somebody did, and otherwise who stands against whom among
/// those that answered.
pub proof fn lemma_a_divergence_shows_everything(c: CaseModel, outs: Seq<NamedModel>, i: int)
    requires
        0 <= i < outs.len(),
    ensures
        verdict_of(c, outs) matches VerdictModel::Diverged { input, outputs, summary } ==> {
            &&& input == case_text(c)
            &&& outputs.len() == outs.len()
            &&& outputs[i] == (outs[i].implementation, rendered(outs[i].output))
            &&& summary == (if exists|k: int| 0 <= k < outs.len() && fell(#[trigger] outs[k]) {
                failure_text(c.op, outs)
            } else {
                disagreement_text(
                    c.op,
                    grouped(outs.filter(|o: NamedModel| o.output.kind != "unsupported"@)),
                )
            })
        },
{
    let f = |o: NamedModel| o.output.kind != "unsupported"@;
    assert(f =~= crate::oracle::is_comparable());
    let broken = outs.filter(is_defect());
    if exists|k: int| 0 <= k < outs.len() && fell(#[trigger] outs[k]) {
        let k = choose|k: int| 0 <= k < outs.len() && fell(#[trigger] outs[k]);
        outs.lemma_filter_contains(is_defect(), k);
    }
    if broken.len() > 0 {
        outs.lemma_filter_pred(is_defect(), 0);
        outs.lemma_filter_contains_rev(is_defect(), broken[0]);
        let k = choose|k: int| 0 <= k < outs.len() && outs[k] == broken[0];
        assert(fell(outs[k]));
    }
}

/// Where nothing can be concluded from answers that agree, it is said how many elements were
/// looked at in vain: all of the first answer where none holds a number, and otherwise as many as
/// were forgiven.
pub proof fn lemma_what_was_looked_at_in_vain(c: CaseModel, outs: Seq<NamedModel>)
    requires
        verdict_of(c, outs) matches VerdictModel::Skipped(SkipReason::NothingComparable { .. }),
    ensures
        ({
            let able = outs.filter(|o: NamedModel| o.output.kind != "unsupported"@);
            let reported = verdict_of(c, outs)->Skipped_0->elements;
            reported == (if forall|k: int|
                0 <= k < able.len() ==> (#[trigger] able[k]).output.degenerate() {
                element_total(able[0].output) as usize
            } else {
                most_licensed(able, able.len()) as usize
            })
        }),
{
    let f = |o: NamedModel| o.output.kind != "unsupported"@;
    assert(f =~= crate::oracle::is_comparable());
}

// ---- who is named ----

/// The names of some answers.
pub open spec fn named(outs: Seq<NamedModel>) -> Seq<Seq<char>> {
    Seq::new(outs.len(), |i: int| outs[i].implementation)
}

/// Whether an answer is a crash or came too late.
pub open spec fn fell(o: NamedModel) -> bool {
    o.output.kind == "crashed"@ || o.output.kind == "timed-out"@
}

/// Who failed outright is named, in order, and where not everybody did it is said what the others
/// answered.
pub proof fn lemma_who_failed_is_named(op: OpKind, outs: Seq<NamedModel>)
    ensures
        ({
            let fallen = outs.filter(|o: NamedModel| fell(o));
            let names = join_text(sort_texts(named(fallen)), ", "@);
            failure_text(op, outs) == (if fallen.len() == outs.len() {
                "every participant failed on "@ + op.text() + " ("@ + names + ")"@
            } else {
                names + " failed on "@ + op.text() + " while others answered: "@ + kinds_text(outs)
            })
        }),
{
    let f = |o: NamedModel| fell(o);
    assert(f =~= is_defect());
    let fallen = outs.filter(f);
    assert(named(fallen) =~= crate::oracle::names_of(fallen));
}

/// One against several is named as such, with how many and who they are, whichever answered first.
pub proof fn lemma_one_against_the_rest_is_named(
    op: OpKind,
    one: NamedModel,
    rest: Seq<NamedModel>,
)
    requires
        rest.len() > 1,
    ensures
        ({
            let text = op.text() + ": "@ + one.implementation + " disagrees with "@ + decimal_text(
                rest.len(),
            ) + " others ("@ + join_text(sort_texts(named(rest)), ", "@) + ")"@;
            &&& disagreement_text(op, seq![seq![one], rest]) == text
            &&& disagreement_text(op, seq![rest, seq![one]]) == text
        }),
{
    assert(named(rest) =~= crate::oracle::names_of(rest));
}

/// Where nobody stands alone against the rest, or there are more than two results, every group is
/// listed with its members.
pub proof fn lemma_factions_are_listed(op: OpKind, groups: Seq<Seq<NamedModel>>)
    requires
        groups.len() != 2 || (groups[0].len() > 1 && groups[1].len() > 1) || (groups[0].len() == 1
            && groups[1].len() == 1),
    ensures
        ({
            let listed = Seq::new(
                groups.len(),
                |i: int| join_text(sort_texts(named(groups[i])), "+"@),
            );
            disagreement_text(op, groups) == op.text() + ": "@ + decimal_text(groups.len())
                + " distinct results — "@ + join_text(sort_texts(listed), " | "@)
        }),
{
    let listed = Seq::new(groups.len(), |i: int| join_text(sort_texts(named(groups[i])), "+"@));
    let other = Seq::new(groups.len(), |i: int| crate::oracle::faction_text(groups[i], "+"@));
    assert forall|i: int| 0 <= i < groups.len() implies listed[i] == #[trigger] other[i] by {
        assert(named(groups[i]) =~= crate::oracle::names_of(groups[i]));
    }
    assert(listed =~= other);
}

/// A run written out again.
pub open spec fn written_out(r: Seq<(Seq<char>, nat)>) -> Seq<Seq<char>>
    decreases r.len(),
{
    if r.len() == 0 {
        Seq::empty()
    } else {
        written_out(r.drop_last()) + Seq::new(r.last().1, |i: int| r.last().0)
    }
}

/// Equal neighbours are counted together: written out again the runs are the list, and no two of
/// them that follow each other are of the same thing.
pub proof fn lemma_runs_are_the_list(s: Seq<Seq<char>>, i: int)
    ensures
        written_out(runs(s)) == s,
        0 < i < runs(s).len() ==> runs(s)[i - 1].0 != runs(s)[i].0,
        0 <= i < runs(s).len() ==> runs(s)[i].1 > 0,
    decreases s.len(),
{
    if s.len() > 0 {
        let front = s.drop_last();
        let x = s.last();
        lemma_runs_are_the_list(front, i);
        let rest = runs(front);
        if rest.len() > 0 && rest.last().0 == x {
            lemma_runs_are_the_list(front, rest.len() - 1);
            assert(runs(s).drop_last() =~= rest.drop_last());
            let n = rest.last().1;
            assert(Seq::new(n + 1, |k: int| x) =~= Seq::new(n, |k: int| x).push(x));
            assert(written_out(rest) =~= written_out(rest.drop_last()) + Seq::new(n, |k: int| x));
            assert(written_out(runs(s)) =~= front.push(x));
            if 0 < i == rest.len() - 1 {
                assert(rest[i - 1].0 != rest[i].0);
            }
        } else {
            assert(runs(s).drop_last() =~= rest);
            assert(Seq::new(1, |k: int| x) =~= seq![x]);
            assert(written_out(runs(s)) =~= front.push(x));
        }
        assert(s =~= front.push(x));
    }
}

/// The kinds of answers are told with how often each came.
pub proof fn lemma_kinds_are_told_with_their_counts(outs: Seq<NamedModel>)
    ensures
        ({
            let counts = runs(sort_texts(Seq::new(outs.len(), |i: int| outs[i].output.kind)));
            let parts = Seq::new(
                counts.len(),
                |i: int| decimal_text(counts[i].1) + "×"@ + counts[i].0,
            );
            kinds_text(outs) == join_text(parts, ", "@)
        }),
{
}

// ---- how outcomes are named ----

/// The name of an outcome, and what is kept of what was said: the last line that says something,
/// cut to two hundred characters, or for how long was waited.
pub proof fn lemma_what_is_kept_of_an_outcome(o: OutcomeModel)
    ensures
        match o {
            OutcomeModel::Produced(tensors) => normal_form(o).kind == "ok"@ && normal_form(
                o,
            ).tensors.len() == tensors.len(),
            OutcomeModel::Rejected(detail) => normal_form(o).kind == "rejected"@ && normal_form(
                o,
            ).detail == clip(last_line(detail), 200),
            OutcomeModel::Unsupported(reason) => normal_form(o).kind == "unsupported"@
                && normal_form(o).detail == clip(last_line(reason), 200),
            OutcomeModel::Crashed(detail) => normal_form(o).kind == "crashed"@ && normal_form(
                o,
            ).detail == clip(last_line(detail), 200),
            OutcomeModel::TimedOut(after_ms) => normal_form(o).kind == "timed-out"@ && normal_form(
                o,
            ).detail == decimal_text(after_ms as nat) + "ms"@,
        },
        !(o is Produced) ==> normal_form(o).tensors.len() == 0,
{
}

// ---- how answers are shown ----

/// A failure is shown by its kind and what it said, and a tensor by its shape and its first sixteen
/// patterns, each in sixteen digits, with how many there are beyond.
pub proof fn lemma_answers_are_shown(c: CanonicalModel, t: CanonModel)
    ensures
        c.kind != "ok"@ ==> rendered(c) == c.kind + ": "@ + c.detail,
        t.bits.len() <= 16 ==> rendered_tensor(t) == integers_text(t.dims) + "["@ + join_text(
            Seq::new(t.bits.len(), |i: int| "0x"@ + hex_text(t.bits[i] as nat, 16)),
            " "@,
        ) + "]"@,
        t.bits.len() > 16 ==> rendered_tensor(t) == integers_text(t.dims) + "["@ + join_text(
            Seq::new(16, |i: int| "0x"@ + hex_text(t.bits[i] as nat, 16)),
            " "@,
        ) + " ...["@ + decimal_text((t.bits.len() - 16) as nat) + " more]"@ + "]"@,
        c.kind == "ok"@ && c.tensors.len() == 1 ==> rendered(c) == rendered_tensor(c.tensors[0]),
{
    if t.bits.len() <= 16 {
        let shown = Seq::new(t.bits.len(), |i: int| "0x"@ + hex_text(t.bits[i] as nat, 16));
        assert(rendered_tensor(t) =~= integers_text(t.dims) + "["@ + join_text(shown, " "@) + "]"@);
    } else {
        let shown = Seq::new(16, |i: int| "0x"@ + hex_text(t.bits[i] as nat, 16));
        assert(rendered_tensor(t) =~= integers_text(t.dims) + "["@ + join_text(shown, " "@)
            + " ...["@ + decimal_text((t.bits.len() - 16) as nat) + " more]"@ + "]"@);
    }
}

} // verus!
