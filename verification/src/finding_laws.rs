//! What a finding stands for: how the kind of a disagreement follows from what the runtimes did,
//! what a key tells apart, how signatures are grouped, and when a replay says something.

use vstd::prelude::*;

use crate::case::{CaseModel, ElemType, OpKind};
use crate::environment::version_in;
use crate::evidence_laws::below;
use crate::findings::FindingModel;
use crate::judging_laws::{accuses, contradict, given, lemma_outcomes_agree_by_their_values};
use crate::metamorphic_laws::kind_of as type_of;
use crate::oracle::{opposed, NamedModel};
use crate::outcome::OutcomeModel;
use crate::policy::drifted;
use crate::problems::{count_of, explained, matched_upto, occurrences_of, of_problem, total_of};
use crate::problems::{lemma_problems_do_not_overlap, unexplained_upto, PROBLEM_KINDS};
use crate::problems::PROBLEM_OPERATORS;
use crate::repro::{change_text, changes_upto, judgement, suspended, ReplayModel};
use crate::signature::{any_defect, any_misshapen, any_opposed, any_refused, kind_of, misshapen};
use crate::signature::{refused, signature_of, Kind, SignatureModel};
use crate::text::{decimal_text, integer_text, lemma_digits_are_digits};
use crate::text::{lemma_digits_tell_numbers_apart, lemma_integers_are_told_apart};

verus! {

// ---- the kind of a disagreement ----

/// Whether two outcomes are tensors that differ in number, in shape or in type.
pub open spec fn unlike(a: OutcomeModel, b: OutcomeModel) -> bool {
    match (a, b) {
        (OutcomeModel::Produced(x), OutcomeModel::Produced(y)) => x.len() != y.len() || exists|
            t: int,
        |
            0 <= t < x.len() && ((#[trigger] x[t]).dims != y[t].dims || type_of(x[t].data)
                != type_of(y[t].data)),
        _ => false,
    }
}

/// Whether somebody crashed or ran out of time.
pub open spec fn somebody_fell(outcomes: Seq<OutcomeModel>) -> bool {
    exists|i: int| 0 <= i < outcomes.len() && accuses(#[trigger] outcomes[i])
}

/// Whether two participants gave answers that are not the same.
pub open spec fn somebody_contradicts(outcomes: Seq<OutcomeModel>) -> bool {
    exists|i: int, j: int|
        0 <= i < outcomes.len() && 0 <= j < outcomes.len() && contradict(
            #[trigger] outcomes[i],
            #[trigger] outcomes[j],
        )
}

/// Whether somebody refused.
pub open spec fn somebody_refuses(outcomes: Seq<OutcomeModel>) -> bool {
    exists|i: int| 0 <= i < outcomes.len() && (#[trigger] outcomes[i]) is Rejected
}

/// Whether two participants gave tensors of other forms.
pub open spec fn forms_differ(outcomes: Seq<OutcomeModel>) -> bool {
    exists|i: int, j: int|
        0 <= i < outcomes.len() && 0 <= j < outcomes.len() && unlike(
            #[trigger] outcomes[i],
            #[trigger] outcomes[j],
        )
}

proof fn lemma_kinds_of_outcome(o: OutcomeModel)
    ensures
        crate::normalize::normal_form(o).ok() == (o is Produced),
        crate::normalize::normal_form(o).unsupported() == (o is Unsupported),
        crate::normalize::normal_form(o).defect() == accuses(o),
{
    reveal_strlit("ok");
    reveal_strlit("rejected");
    reveal_strlit("unsupported");
    reveal_strlit("crashed");
    reveal_strlit("timed-out");
    assert("ok"@.len() == 2 && "rejected"@.len() == 8 && "unsupported"@.len() == 11
        && "crashed"@.len() == 7 && "timed-out"@.len() == 9);
}

proof fn lemma_misshapen(names: Seq<Seq<char>>, outcomes: Seq<OutcomeModel>, i: int, j: int)
    requires
        0 <= i < outcomes.len(),
        0 <= j < outcomes.len(),
        outcomes[i] is Produced || outcomes[i] is Unsupported,
        outcomes[j] is Produced || outcomes[j] is Unsupported,
    ensures
        misshapen(given(names, outcomes)[i], given(names, outcomes)[j]) == unlike(
            outcomes[i],
            outcomes[j],
        ),
{
    let (a, b) = (outcomes[i], outcomes[j]);
    let outs = given(names, outcomes);
    lemma_kinds_of_outcome(a);
    lemma_kinds_of_outcome(b);
    if a is Produced && b is Produced {
        let (x, y) = (a->Produced_0, b->Produced_0);
        let (p, q) = (outs[i].output, outs[j].output);
        assert forall|t: int| 0 <= t < x.len() && x.len() == y.len() implies (
        #[trigger] p.tensors[t]).dims == x[t].dims && p.tensors[t].elem_type == type_of(x[t].data)
            && q.tensors[t].dims == y[t].dims && q.tensors[t].elem_type == type_of(y[t].data) by {}
        if unlike(a, b) && x.len() == y.len() {
            let t = choose|t: int|
                0 <= t < x.len() && ((#[trigger] x[t]).dims != y[t].dims || type_of(x[t].data)
                    != type_of(y[t].data));
            assert(p.tensors[t].dims == x[t].dims);
        }
    }
}

proof fn lemma_falls(names: Seq<Seq<char>>, outcomes: Seq<OutcomeModel>)
    ensures
        any_defect(given(names, outcomes)) == somebody_fell(outcomes),
{
    let outs = given(names, outcomes);
    if somebody_fell(outcomes) {
        let i = choose|i: int| 0 <= i < outcomes.len() && accuses(#[trigger] outcomes[i]);
        lemma_kinds_of_outcome(outcomes[i]);
        assert(outs[i].output.defect());
    }
    if any_defect(outs) {
        let i = choose|i: int| 0 <= i < outs.len() && (#[trigger] outs[i]).output.defect();
        lemma_kinds_of_outcome(outcomes[i]);
        assert(accuses(outcomes[i]));
    }
}

proof fn lemma_opposed(names: Seq<Seq<char>>, outcomes: Seq<OutcomeModel>, i: int, j: int)
    requires
        0 <= i < outcomes.len(),
        0 <= j < outcomes.len(),
    ensures
        opposed(given(names, outcomes)[i], given(names, outcomes)[j]) == contradict(
            outcomes[i],
            outcomes[j],
        ),
{
    lemma_outcomes_agree_by_their_values(outcomes[i], outcomes[j]);
    lemma_kinds_of_outcome(outcomes[i]);
    lemma_kinds_of_outcome(outcomes[j]);
}

proof fn lemma_contradicts(names: Seq<Seq<char>>, outcomes: Seq<OutcomeModel>)
    ensures
        any_opposed(given(names, outcomes)) == somebody_contradicts(outcomes),
{
    let outs = given(names, outcomes);
    if somebody_contradicts(outcomes) {
        let (i, j) = choose|i: int, j: int|
            0 <= i < outcomes.len() && 0 <= j < outcomes.len() && contradict(
                #[trigger] outcomes[i],
                #[trigger] outcomes[j],
            );
        lemma_opposed(names, outcomes, i, j);
        assert(opposed(outs[i], outs[j]));
    }
    if any_opposed(outs) {
        let (i, j) = choose|i: int, j: int|
            0 <= i < outs.len() && 0 <= j < outs.len() && opposed(
                #[trigger] outs[i],
                #[trigger] outs[j],
            );
        lemma_opposed(names, outcomes, i, j);
        assert(contradict(outcomes[i], outcomes[j]));
    }
}

proof fn lemma_refuses(names: Seq<Seq<char>>, outcomes: Seq<OutcomeModel>)
    requires
        !somebody_fell(outcomes),
    ensures
        any_refused(given(names, outcomes)) == somebody_refuses(outcomes),
{
    let outs = given(names, outcomes);
    if somebody_refuses(outcomes) {
        let i = choose|i: int| 0 <= i < outcomes.len() && (#[trigger] outcomes[i]) is Rejected;
        lemma_kinds_of_outcome(outcomes[i]);
        assert(refused(outs[i]));
    }
    if any_refused(outs) {
        let i = choose|i: int| 0 <= i < outs.len() && refused(#[trigger] outs[i]);
        lemma_kinds_of_outcome(outcomes[i]);
        assert(!accuses(outcomes[i]));
        assert(outcomes[i] is Rejected);
    }
}

proof fn lemma_forms(names: Seq<Seq<char>>, outcomes: Seq<OutcomeModel>)
    requires
        !somebody_fell(outcomes),
        !somebody_refuses(outcomes),
    ensures
        any_misshapen(given(names, outcomes)) == forms_differ(outcomes),
{
    let outs = given(names, outcomes);
    assert forall|i: int| 0 <= i < outcomes.len() implies (#[trigger] outcomes[i]) is Produced
        || outcomes[i] is Unsupported by {
        assert(!accuses(outcomes[i]) && !(outcomes[i] is Rejected));
    }
    if forms_differ(outcomes) {
        let (i, j) = choose|i: int, j: int|
            0 <= i < outcomes.len() && 0 <= j < outcomes.len() && unlike(
                #[trigger] outcomes[i],
                #[trigger] outcomes[j],
            );
        lemma_misshapen(names, outcomes, i, j);
        assert(misshapen(outs[i], outs[j]));
    }
    if any_misshapen(outs) {
        let (i, j) = choose|i: int, j: int|
            0 <= i < outs.len() && 0 <= j < outs.len() && misshapen(
                #[trigger] outs[i],
                #[trigger] outs[j],
            );
        lemma_misshapen(names, outcomes, i, j);
        assert(unlike(outcomes[i], outcomes[j]));
    }
}

/// How a disagreement is classed: a crash before anything else; otherwise, where answers
/// contradict each other, by a refusal, then by the forms, and only then by the values.
pub proof fn lemma_the_kind_follows_from_what_was_done(
    names: Seq<Seq<char>>,
    outcomes: Seq<OutcomeModel>,
)
    ensures
        kind_of(given(names, outcomes)) == (if somebody_fell(outcomes) {
            Some(Kind::Crash)
        } else if !somebody_contradicts(outcomes) {
            None
        } else if somebody_refuses(outcomes) {
            Some(Kind::RejectedVersusOk)
        } else if forms_differ(outcomes) {
            Some(Kind::Shape)
        } else {
            Some(Kind::Value)
        }),
{
    lemma_falls(names, outcomes);
    lemma_contradicts(names, outcomes);
    if !somebody_fell(outcomes) {
        lemma_refuses(names, outcomes);
        if !somebody_refuses(outcomes) {
            lemma_forms(names, outcomes);
        }
    }
}

/// A signature tells the operator, the version, the type of the data, the rank and the kind, and
/// names every participant in order.
pub proof fn lemma_a_signature_tells_what_was_asked(c: CaseModel, outs: Seq<NamedModel>, i: int)
    requires
        kind_of(outs) is Some,
        c.inputs.len() > 0,
        c.op == OpKind::Where ==> c.inputs.len() > 1,
        0 <= i < outs.len(),
    ensures
        signature_of(c, outs) matches Some(s) && {
            &&& s.operator == c.op.text()
            &&& s.opset == c.opset
            &&& s.elem_type == type_of(
                if c.op == OpKind::Where {
                    c.inputs[1].data
                } else {
                    c.inputs[0].data
                },
            )
            &&& Some(s.kind) == kind_of(outs)
            &&& s.participants.len() == outs.len()
            &&& s.participants[i] == (outs[i].implementation, outs[i].output.kind)
        },
{
}

// ---- keys ----

/// Whether no character is the one that separates the parts of a key.
pub open spec fn in_one_piece(s: Seq<char>) -> bool {
    forall|i: int| 0 <= i < s.len() ==> #[trigger] s[i] != '/'
}

proof fn lemma_cut(a: Seq<char>, x: Seq<char>, b: Seq<char>, y: Seq<char>)
    requires
        in_one_piece(a),
        in_one_piece(b),
        a + seq!['/'] + x == b + seq!['/'] + y,
    ensures
        a == b,
        x == y,
{
    let s = a + seq!['/'] + x;
    let t = b + seq!['/'] + y;
    if a.len() < b.len() {
        assert(s[a.len() as int] == '/');
        assert(t[a.len() as int] == b[a.len() as int]);
    }
    if b.len() < a.len() {
        assert(t[b.len() as int] == '/');
        assert(s[b.len() as int] == a[b.len() as int]);
    }
    assert(a =~= s.take(a.len() as int));
    assert(b =~= t.take(b.len() as int));
    assert(x =~= s.skip(a.len() as int + 1));
    assert(y =~= t.skip(b.len() as int + 1));
}

proof fn lemma_numbers_in_one_piece(n: int)
    ensures
        in_one_piece(integer_text(n)),
{
    let x = if n < 0 { (-n) as nat } else { n as nat };
    lemma_digits_are_digits(x, 10);
    let d = decimal_text(x);
    assert forall|i: int| 0 <= i < integer_text(n).len() implies #[trigger] integer_text(n)[i]
        != '/' by {
        if n < 0 {
            if i > 0 {
                assert(integer_text(n)[i] == d[i - 1]);
            }
        } else {
            assert(integer_text(n)[i] == d[i]);
        }
    }
}

proof fn lemma_type_names(t: ElemType)
    ensures
        in_one_piece(t.text()),
        t.text().len() > 0,
{
    reveal_strlit("F32");
    reveal_strlit("F64");
    reveal_strlit("I32");
    reveal_strlit("I64");
    reveal_strlit("Bool");
    reveal_strlit("I8");
    reveal_strlit("U8");
}

proof fn lemma_type_names_differ(a: ElemType, b: ElemType)
    requires
        a.text() == b.text(),
    ensures
        a == b,
{
    reveal_strlit("F32");
    reveal_strlit("F64");
    reveal_strlit("I32");
    reveal_strlit("I64");
    reveal_strlit("Bool");
    reveal_strlit("I8");
    reveal_strlit("U8");
    assert("F32"@[0] == 'F' && "F32"@[1] == '3' && "F64"@[0] == 'F' && "F64"@[1] == '6');
    assert("I32"@[0] == 'I' && "I32"@[1] == '3' && "I64"@[0] == 'I' && "I64"@[1] == '6');
    assert("I8"@[0] == 'I' && "U8"@[0] == 'U' && "Bool"@[0] == 'B');
    assert("F32"@.len() == 3 && "F64"@.len() == 3 && "I32"@.len() == 3 && "I64"@.len() == 3
        && "I8"@.len() == 2 && "U8"@.len() == 2 && "Bool"@.len() == 4);
}

proof fn lemma_kind_names_differ(a: Kind, b: Kind)
    requires
        a.text() == b.text(),
    ensures
        a == b,
{
    reveal_strlit("value");
    reveal_strlit("shape");
    reveal_strlit("rejected-vs-ok");
    reveal_strlit("crash");
    assert("value"@[0] == 'v' && "shape"@[0] == 's' && "rejected-vs-ok"@[0] == 'r' && "crash"@[0]
        == 'c');
}

spec fn after_rank(s: SignatureModel) -> Seq<char> {
    decimal_text(s.rank) + seq!['/'] + s.kind.text()
}

spec fn after_type(s: SignatureModel) -> Seq<char> {
    seq!['r', 'a', 'n', 'k'] + after_rank(s)
}

spec fn after_opset(s: SignatureModel) -> Seq<char> {
    s.elem_type.text() + seq!['/'] + after_type(s)
}

spec fn after_operator(s: SignatureModel) -> Seq<char> {
    integer_text(s.opset as int) + seq!['/'] + after_opset(s)
}

proof fn lemma_key_parts(s: SignatureModel)
    ensures
        s.key() == s.operator + seq!['/'] + after_operator(s),
{
    reveal_strlit("/");
    reveal_strlit("/rank");
    assert("/"@ =~= seq!['/']);
    assert("/rank"@ =~= seq!['/'] + seq!['r', 'a', 'n', 'k']);
    assert(s.key() =~= s.operator + seq!['/'] + after_operator(s));
}

proof fn lemma_after_operator(a: SignatureModel, b: SignatureModel)
    requires
        after_operator(a) == after_operator(b),
    ensures
        a.opset == b.opset,
        after_opset(a) == after_opset(b),
{
    lemma_numbers_in_one_piece(a.opset as int);
    lemma_numbers_in_one_piece(b.opset as int);
    lemma_cut(
        integer_text(a.opset as int),
        after_opset(a),
        integer_text(b.opset as int),
        after_opset(b),
    );
    lemma_integers_are_told_apart(a.opset as int, b.opset as int);
}

proof fn lemma_after_opset(a: SignatureModel, b: SignatureModel)
    requires
        after_opset(a) == after_opset(b),
    ensures
        a.elem_type == b.elem_type,
        after_rank(a) == after_rank(b),
{
    lemma_type_names(a.elem_type);
    lemma_type_names(b.elem_type);
    lemma_cut(a.elem_type.text(), after_type(a), b.elem_type.text(), after_type(b));
    lemma_type_names_differ(a.elem_type, b.elem_type);
    assert(after_type(a).skip(4) =~= after_rank(a));
    assert(after_type(b).skip(4) =~= after_rank(b));
}

proof fn lemma_after_rank(a: SignatureModel, b: SignatureModel)
    requires
        after_rank(a) == after_rank(b),
    ensures
        a.rank == b.rank,
        a.kind == b.kind,
{
    lemma_numbers_in_one_piece(a.rank as int);
    lemma_numbers_in_one_piece(b.rank as int);
    lemma_cut(decimal_text(a.rank), a.kind.text(), decimal_text(b.rank), b.kind.text());
    lemma_digits_tell_numbers_apart(a.rank, b.rank, 10);
    lemma_kind_names_differ(a.kind, b.kind);
}

/// A key tells findings apart by operator, version, type, rank and kind, and by nothing else: two
/// have one key exactly where they agree on all five.
pub proof fn lemma_a_key_tells_five_things(a: SignatureModel, b: SignatureModel)
    requires
        in_one_piece(a.operator),
        in_one_piece(b.operator),
    ensures
        a.key() == b.key() <==> a.operator == b.operator && a.opset == b.opset && a.elem_type
            == b.elem_type && a.rank == b.rank && a.kind == b.kind,
{
    if a.key() == b.key() {
        lemma_key_parts(a);
        lemma_key_parts(b);
        lemma_cut(a.operator, after_operator(a), b.operator, after_operator(b));
        lemma_after_operator(a, b);
        lemma_after_opset(a, b);
        lemma_after_rank(a, b);
    }
}

// ---- problems ----

/// Whether a signature belongs to the problem at a place: wrong values of `Sign` and of `Where`,
/// a refusal of `Reshape`, and a crash of `Div`.
pub open spec fn stands_for(i: int, s: SignatureModel) -> bool {
    ||| i == 0 && s.operator == "Sign"@ && s.kind == Kind::Value
    ||| i == 1 && s.operator == "Where"@ && s.kind == Kind::Value
    ||| i == 2 && s.operator == "Reshape"@ && s.kind == Kind::RejectedVersusOk
    ||| i == 3 && s.operator == "Div"@ && s.kind == Kind::Crash
}

/// A signature belongs to a problem by its operator and its kind alone, and to no more than one.
pub proof fn lemma_problems_are_told_by_operator_and_kind(i: int, s: SignatureModel)
    requires
        0 <= i < 4,
    ensures
        of_problem(i, s) == stands_for(i, s),
        explained(s) <==> stands_for(0, s) || stands_for(1, s) || stands_for(2, s) || stands_for(
            3,
            s,
        ),
{
    assert(PROBLEM_OPERATORS[0] == OpKind::Sign && PROBLEM_OPERATORS[1] == OpKind::Where
        && PROBLEM_OPERATORS[2] == OpKind::Reshape && PROBLEM_OPERATORS[3] == OpKind::Div);
    assert(PROBLEM_KINDS[0] == Kind::Value && PROBLEM_KINDS[1] == Kind::Value && PROBLEM_KINDS[2]
        == Kind::RejectedVersusOk && PROBLEM_KINDS[3] == Kind::Crash);
}

proof fn lemma_problem_counts(i: int, sigs: Seq<(SignatureModel, usize)>, n: nat)
    requires
        0 <= i < 4,
    ensures
        count_of(i, sigs, n) == below(n).filter(|k: int| stands_for(i, sigs[k].0)).len(),
    decreases n,
{
    reveal(Seq::filter);
    if n > 0 {
        lemma_problem_counts(i, sigs, (n - 1) as nat);
        let f = |k: int| stands_for(i, sigs[k].0);
        assert(below(n) =~= below((n - 1) as nat).push(n - 1));
        below((n - 1) as nat).lemma_filter_push(n - 1, f);
        lemma_problems_are_told_by_operator_and_kind(i, sigs[n - 1].0);
    }
}

/// How many occurrences the unexplained signatures have.
pub open spec fn occurrences_left(rows: Seq<(Seq<char>, usize)>) -> nat
    decreases rows.len(),
{
    if rows.len() == 0 {
        0
    } else {
        occurrences_left(rows.drop_last()) + rows.last().1 as nat
    }
}

/// Grouping loses no occurrence: those of the four problems and the unexplained ones are all of
/// them.
pub proof fn lemma_every_occurrence_is_accounted_for(sigs: Seq<(SignatureModel, usize)>, n: nat)
    requires
        n <= sigs.len(),
    ensures
        occurrences_of(0, sigs, n) + occurrences_of(1, sigs, n) + occurrences_of(2, sigs, n)
            + occurrences_of(3, sigs, n) + occurrences_left(unexplained_upto(sigs, n)) == total_of(
            sigs,
            n,
        ),
    decreases n,
{
    if n > 0 {
        lemma_every_occurrence_is_accounted_for(sigs, (n - 1) as nat);
        let s = sigs[n - 1].0;
        let rest = unexplained_upto(sigs, (n - 1) as nat);
        if of_problem(0, s) && of_problem(1, s) {
            lemma_problems_do_not_overlap(0, 1, s);
        }
        if of_problem(0, s) && of_problem(2, s) {
            lemma_problems_do_not_overlap(0, 2, s);
        }
        if of_problem(0, s) && of_problem(3, s) {
            lemma_problems_do_not_overlap(0, 3, s);
        }
        if of_problem(1, s) && of_problem(2, s) {
            lemma_problems_do_not_overlap(1, 2, s);
        }
        if of_problem(1, s) && of_problem(3, s) {
            lemma_problems_do_not_overlap(1, 3, s);
        }
        if of_problem(2, s) && of_problem(3, s) {
            lemma_problems_do_not_overlap(2, 3, s);
        }
        assert(rest.push((s.key(), sigs[n - 1].1)).drop_last() =~= rest);
    }
}

proof fn lemma_matched(sigs: Seq<(SignatureModel, usize)>, n: nat, i: int)
    requires
        0 <= i < 4,
    ensures
        matched_upto(sigs, n).contains(
            (i, count_of(i, sigs, sigs.len()), occurrences_of(i, sigs, sigs.len())),
        ) == (i < n && count_of(i, sigs, sigs.len()) > 0),
    decreases n,
{
    if n > 0 {
        lemma_matched(sigs, (n - 1) as nat, i);
        let row = (i, count_of(i, sigs, sigs.len()), occurrences_of(i, sigs, sigs.len()));
        let rest = matched_upto(sigs, (n - 1) as nat);
        let all = matched_upto(sigs, n);
        if rest.contains(row) {
            let k = choose|k: int| 0 <= k < rest.len() && rest[k] == row;
            assert(all[k] == row);
        }
        if i == n - 1 && count_of(i, sigs, sigs.len()) > 0 {
            assert(all[rest.len() as int] == row);
        }
        if all.contains(row) {
            let k = choose|k: int| 0 <= k < all.len() && all[k] == row;
            if k < rest.len() {
                assert(rest[k] == row);
            }
        }
    }
}

/// A problem is reported exactly where a signature belongs to it, with how many do.
pub proof fn lemma_a_problem_is_reported_where_it_was_seen(
    sigs: Seq<(SignatureModel, usize)>,
    i: int,
)
    requires
        0 <= i < 4,
    ensures
        matched_upto(sigs, 4).contains(
            (
                i,
                below(sigs.len()).filter(|k: int| stands_for(i, sigs[k].0)).len(),
                occurrences_of(i, sigs, sigs.len()),
            ),
        ) == (exists|k: int| 0 <= k < sigs.len() && stands_for(i, (#[trigger] sigs[k]).0)),
{
    lemma_matched(sigs, 4, i);
    lemma_problem_counts(i, sigs, sigs.len());
    let f = |k: int| stands_for(i, sigs[k].0);
    let s = below(sigs.len());
    if exists|k: int| 0 <= k < sigs.len() && stands_for(i, (#[trigger] sigs[k]).0) {
        let k = choose|k: int| 0 <= k < sigs.len() && stands_for(i, (#[trigger] sigs[k]).0);
        assert(s[k] == k);
        s.lemma_filter_contains(f, k);
    }
    if s.filter(f).len() > 0 {
        s.lemma_filter_pred(f, 0);
        s.lemma_filter_contains_rev(f, s.filter(f)[0]);
        let k = s.filter(f)[0];
        assert(stands_for(i, sigs[k].0));
    }
}

proof fn lemma_unexplained(sigs: Seq<(SignatureModel, usize)>, n: nat, k: int)
    requires
        0 <= k < n <= sigs.len(),
        !explained(sigs[k].0),
    ensures
        unexplained_upto(sigs, n).contains((sigs[k].0.key(), sigs[k].1)),
    decreases n,
{
    let row = (sigs[k].0.key(), sigs[k].1);
    let rest = unexplained_upto(sigs, (n - 1) as nat);
    let all = unexplained_upto(sigs, n);
    if k == n - 1 {
        assert(all[rest.len() as int] == row);
    } else {
        lemma_unexplained(sigs, (n - 1) as nat, k);
        let i = choose|i: int| 0 <= i < rest.len() && rest[i] == row;
        assert(all[i] == row);
    }
}

/// A signature that belongs to no problem is reported by its key, with its occurrences.
pub proof fn lemma_what_no_problem_explains_is_reported(
    sigs: Seq<(SignatureModel, usize)>,
    k: int,
)
    requires
        0 <= k < sigs.len(),
        !stands_for(0, sigs[k].0),
        !stands_for(1, sigs[k].0),
        !stands_for(2, sigs[k].0),
        !stands_for(3, sigs[k].0),
    ensures
        unexplained_upto(sigs, sigs.len()).contains((sigs[k].0.key(), sigs[k].1)),
{
    lemma_problems_are_told_by_operator_and_kind(0, sigs[k].0);
    lemma_unexplained(sigs, sigs.len(), k);
}

// ---- replays ----

/// Whether a component is found with the version that was recorded: the first of its name has it.
pub open spec fn unchanged(now: Seq<(Seq<char>, Seq<char>)>, name: Seq<char>, then: Seq<char>) -> bool {
    exists|k: int|
        0 <= k < now.len() && #[trigger] now[k] == (name, then) && forall|j: int|
            0 <= j < k ==> (#[trigger] now[j]).0 != name
}

pub proof fn lemma_version_in(now: Seq<(Seq<char>, Seq<char>)>, name: Seq<char>, then: Seq<char>)
    ensures
        (version_in(now, name) == Some(then)) == unchanged(now, name, then),
    decreases now.len(),
{
    if now.len() > 0 {
        let rest = now.skip(1);
        lemma_version_in(rest, name, then);
        if now[0].0 == name {
            if now[0].1 == then {
                assert(now[0] == (name, then));
            }
            if unchanged(now, name, then) {
                let k = choose|k: int|
                    0 <= k < now.len() && #[trigger] now[k] == (name, then) && forall|j: int|
                        0 <= j < k ==> (#[trigger] now[j]).0 != name;
                assert(k == 0);
            }
        } else {
            if unchanged(rest, name, then) {
                let k = choose|k: int|
                    0 <= k < rest.len() && #[trigger] rest[k] == (name, then) && forall|j: int|
                        0 <= j < k ==> (#[trigger] rest[j]).0 != name;
                assert(now[k + 1] == (name, then));
                assert forall|j: int| 0 <= j < k + 1 implies (#[trigger] now[j]).0 != name by {
                    if j > 0 {
                        assert(rest[j - 1] == now[j]);
                    }
                }
            }
            if unchanged(now, name, then) {
                let k = choose|k: int|
                    0 <= k < now.len() && #[trigger] now[k] == (name, then) && forall|j: int|
                        0 <= j < k ==> (#[trigger] now[j]).0 != name;
                assert(rest[k - 1] == (name, then));
                assert forall|j: int| 0 <= j < k - 1 implies (#[trigger] rest[j]).0 != name by {
                    assert(now[j + 1] == rest[j]);
                }
            }
        }
    }
}

proof fn lemma_changes(then: Seq<(Seq<char>, Seq<char>)>, now: Seq<(Seq<char>, Seq<char>)>, n: nat)
    requires
        n <= then.len(),
    ensures
        changes_upto(then, now, n).len() == 0 <==> forall|i: int|
            0 <= i < n ==> unchanged(now, (#[trigger] then[i]).0, then[i].1),
    decreases n,
{
    if n > 0 {
        lemma_changes(then, now, (n - 1) as nat);
        lemma_version_in(now, then[n - 1].0, then[n - 1].1);
    }
}

/// A finding made under the present rules is judged exactly where every component that was
/// recorded is still there in the version that was recorded.
pub proof fn lemma_a_finding_is_judged_where_nothing_moved(
    finding: FindingModel,
    now: Seq<(Seq<char>, Seq<char>)>,
)
    ensures
        suspended(finding, now) is None <==> !drifted(finding.policy) && forall|i: int|
            0 <= i < finding.environment.components.len() ==> unchanged(
                now,
                (#[trigger] finding.environment.components[i]).0,
                finding.environment.components[i].1,
            ),
        suspended(finding, now) is Some ==> !(suspended(finding, now)->0 is Reproduced)
            && !(suspended(finding, now)->0 is NoLongerDiverges),
{
    lemma_changes(
        finding.environment.components,
        now,
        finding.environment.components.len(),
    );
}

/// A replay reproduces a finding exactly where the participants diverge again under the very key
/// that was recorded, and closes it exactly where they do not diverge.
pub proof fn lemma_a_replay_reproduces_by_key(
    finding: FindingModel,
    names: Seq<Seq<char>>,
    outcomes: Seq<OutcomeModel>,
)
    ensures
        ({
            let outs = given(names, outcomes);
            let apart = somebody_fell(outcomes) || somebody_contradicts(outcomes);
            &&& judgement(finding, outs) is NoLongerDiverges <==> !apart
            &&& judgement(finding, outs) is Reproduced <==> apart && signature_of(
                finding.case,
                outs,
            ) is Some && signature_of(finding.case, outs)->0.key() == finding.signature
            &&& judgement(finding, outs) matches ReplayModel::Reproduced(key) ==> key
                == finding.signature
            &&& judgement(finding, outs) matches ReplayModel::DivergedDifferently(was, now) ==> was
                == finding.signature && (signature_of(finding.case, outs) is Some ==> now != was)
        }),
{
    crate::judging_laws::lemma_a_case_diverges_by_its_outcomes(finding.case, names, outcomes);
}

/// What has changed is told by name, with the version that was recorded and the one that is there
/// now, and what has not changed is not told.
pub proof fn lemma_a_change_is_told(name: Seq<char>, then: Seq<char>, now: Seq<char>)
    ensures
        change_text(name, then, Some(then)) is None,
        now != then ==> change_text(name, then, Some(now)) == Some(
            name + ": recorded "@ + then + ", now "@ + now,
        ),
        change_text(name, then, None) == Some(name + ": recorded "@ + then + ", now absent"@),
{
}

} // verus!
