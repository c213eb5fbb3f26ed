//! Which distinct problems a set of signatures stands for.
//!
//! A signature is fine on purpose, so one defect shows under many of them. The grouping is declared
//! and not computed: two signatures share a cause when somebody has established that they do. What
//! matches no problem is reported as unexplained, and counts as a problem of its own until somebody
//! explains it.

use vstd::prelude::*;

use crate::case::OpKind;
use crate::order::{counted, sort_counted, sort_named_counts};
use crate::signature::{Kind, Signature, SignatureModel};
use crate::text::same_text;

verus! {

/// How far along a problem is.
#[derive(Debug, Clone, Copy, PartialEq, Eq, Structural)]
pub enum Status {
    /// A report is ready to send.
    Ready,
    /// The behaviour is real, but whether to report it is not settled.
    Candidate,
    /// Confirmed, and deliberately not reported.
    NotFiling,
}

/// One underlying problem, and the signatures it accounts for.
#[derive(Debug, Clone, Copy)]
pub struct Problem {
    pub id: &'static str,
    /// What established it.
    pub finding: &'static str,
    /// The implementation at fault.
    pub implementation: &'static str,
    pub what: &'static str,
    pub status: Status,
    /// The operator that every signature of the problem carries.
    pub operator: OpKind,
    /// The kind of disagreement. A wrong answer and a refusal on one operator are two problems.
    pub kind: Kind,
}

/// How many problems are known.
pub const PROBLEM_COUNT: usize = 4;

/// The identifiers.
pub const PROBLEM_IDS: [&'static str; 4] = ["P-001", "P-002", "P-003", "P-004"];

/// What established each problem.
pub const PROBLEM_FINDINGS: [&'static str; 4] = [
    "F-001 (integer path, fixed upstream) + F-005 (float path, live)",
    "F-004",
    "F-002",
    "F-006",
];

/// The implementations at fault.
pub const PROBLEM_IMPLEMENTATIONS: [&'static str; 4] = [
    "tract",
    "onnxruntime",
    "tract and candle",
    "tract",
];

/// What goes wrong.
pub const PROBLEM_WHATS: [&'static str; 4] = [
    "Sign mishandles zero: 1 for integer 0, and -0.0 for -0.0",
    "Where returns +0.0 for a -0.0 selected from X; the Y branch is correct",
    "Reshape of a zero-size tensor is refused, while the reference and ONNX Runtime execute it",
    "Div panics on int32::MIN / -1, which ONNX leaves undetermined",
];

/// How far along each problem is.
pub const PROBLEM_STATUSES: [Status; 4] = [
    Status::Ready,
    Status::Ready,
    Status::Candidate,
    Status::Candidate,
];

/// The operators.
pub const PROBLEM_OPERATORS: [OpKind; 4] = [
    OpKind::Sign,
    OpKind::Where,
    OpKind::Reshape,
    OpKind::Div,
];

/// The kinds of disagreement.
pub const PROBLEM_KINDS: [Kind; 4] = [
    Kind::Value,
    Kind::Value,
    Kind::RejectedVersusOk,
    Kind::Crash,
];

/// Whether a value is the problem at a position of the table.
pub open spec fn is_problem(p: Problem, i: int) -> bool {
    &&& p.id@ == PROBLEM_IDS[i]@
    &&& p.finding@ == PROBLEM_FINDINGS[i]@
    &&& p.implementation@ == PROBLEM_IMPLEMENTATIONS[i]@
    &&& p.what@ == PROBLEM_WHATS[i]@
    &&& p.status == PROBLEM_STATUSES[i]
    &&& p.operator == PROBLEM_OPERATORS[i]
    &&& p.kind == PROBLEM_KINDS[i]
}

/// The problem at a position of the table.
fn problem_at(i: usize) -> (r: Problem)
    requires
        i < PROBLEM_COUNT,
    ensures
        is_problem(r, i as int),
{
    Problem {
        id: PROBLEM_IDS[i],
        finding: PROBLEM_FINDINGS[i],
        implementation: PROBLEM_IMPLEMENTATIONS[i],
        what: PROBLEM_WHATS[i],
        status: PROBLEM_STATUSES[i],
        operator: PROBLEM_OPERATORS[i],
        kind: PROBLEM_KINDS[i],
    }
}

/// The known problems.
pub fn problems() -> (r: Vec<Problem>)
    ensures
        r.len() == PROBLEM_COUNT,
        forall|i: int| 0 <= i < r.len() ==> is_problem(#[trigger] r@[i], i),
{
    let mut out: Vec<Problem> = Vec::new();
    while out.len() < PROBLEM_COUNT
        invariant
            out.len() <= PROBLEM_COUNT,
            forall|i: int| 0 <= i < out.len() ==> is_problem(#[trigger] out@[i], i),
        decreases PROBLEM_COUNT - out.len(),
    {
        let i: usize = out.len();
        out.push(problem_at(i));
    }
    out
}

/// Whether a signature belongs to a problem with an operator and a kind.
pub open spec fn belongs(operator: OpKind, kind: Kind, s: SignatureModel) -> bool {
    s.operator == operator.text() && s.kind == kind
}

impl Problem {
    /// Whether a signature belongs to this problem.
    pub fn covers(&self, signature: &Signature) -> (r: bool)
        ensures
            r == belongs(self.operator, self.kind, signature@),
    {
        same_text(signature.operator.as_str(), self.operator.onnx_name()) && signature.kind
            == self.kind
    }
}

// ---- grouping ----

/// The models of a sequence of signatures with their occurrences.
pub open spec fn seen(v: Seq<(Signature, usize)>) -> Seq<(SignatureModel, usize)> {
    Seq::new(v.len(), |i: int| (v[i].0@, v[i].1))
}

/// Whether a signature belongs to the problem at a position of the table.
pub open spec fn of_problem(i: int, s: SignatureModel) -> bool {
    belongs(PROBLEM_OPERATORS[i], PROBLEM_KINDS[i], s)
}

/// Whether a signature belongs to one of the known problems.
pub open spec fn explained(s: SignatureModel) -> bool {
    of_problem(0, s) || of_problem(1, s) || of_problem(2, s) || of_problem(3, s)
}

/// How many of the first `n` signatures belong to a problem.
pub open spec fn count_of(i: int, sigs: Seq<(SignatureModel, usize)>, n: nat) -> nat
    decreases n,
{
    if n == 0 {
        0
    } else {
        count_of(i, sigs, (n - 1) as nat) + if of_problem(i, sigs[n - 1].0) {
            1nat
        } else {
            0nat
        }
    }
}

/// How many occurrences the signatures of a problem have among the first `n`.
pub open spec fn occurrences_of(i: int, sigs: Seq<(SignatureModel, usize)>, n: nat) -> nat
    decreases n,
{
    if n == 0 {
        0
    } else {
        occurrences_of(i, sigs, (n - 1) as nat) + if of_problem(i, sigs[n - 1].0) {
            sigs[n - 1].1 as nat
        } else {
            0
        }
    }
}

/// How many occurrences the first `n` signatures have together.
pub open spec fn total_of(sigs: Seq<(SignatureModel, usize)>, n: nat) -> nat
    decreases n,
{
    if n == 0 {
        0
    } else {
        total_of(sigs, (n - 1) as nat) + sigs[n - 1].1 as nat
    }
}

/// What the first `n` problems of the table account for: the position, the signatures and the
/// occurrences, for each that was seen.
pub open spec fn matched_upto(sigs: Seq<(SignatureModel, usize)>, n: nat) -> Seq<(int, nat, nat)>
    decreases n,
{
    if n == 0 {
        Seq::empty()
    } else {
        let rest = matched_upto(sigs, (n - 1) as nat);
        if count_of(n - 1, sigs, sigs.len()) > 0 {
            rest.push(
                (n - 1, count_of(n - 1, sigs, sigs.len()), occurrences_of(n - 1, sigs, sigs.len())),
            )
        } else {
            rest
        }
    }
}

/// The keys and the occurrences of those of the first `n` signatures that match no problem.
pub open spec fn unexplained_upto(sigs: Seq<(SignatureModel, usize)>, n: nat) -> Seq<
    (Seq<char>, usize),
>
    decreases n,
{
    if n == 0 {
        Seq::empty()
    } else {
        let rest = unexplained_upto(sigs, (n - 1) as nat);
        if explained(sigs[n - 1].0) {
            rest
        } else {
            rest.push((sigs[n - 1].0.key(), sigs[n - 1].1))
        }
    }
}

/// Signatures grouped into problems.
#[derive(Debug)]
pub struct Grouping {
    /// The problems that were seen, each with how many signatures and occurrences it accounts for.
    pub matched: Vec<(Problem, usize, usize)>,
    /// The signatures that match no known problem, with their occurrences.
    pub unexplained: Vec<(String, usize)>,
}

impl Grouping {
    /// How many distinct problems there are.
    pub open spec fn problem_count(self) -> nat {
        self.matched@.len() + self.unexplained@.len()
    }

    /// How many distinct problems there are, which is the number to lead with.
    pub fn problems(&self) -> (r: usize)
        requires
            self.problem_count() <= usize::MAX,
        ensures
            r == self.problem_count(),
    {
        self.matched.len() + self.unexplained.len()
    }

    /// Whether anything was seen that nobody has explained.
    pub fn has_unexplained(&self) -> (r: bool)
        ensures
            r == (self.unexplained@.len() > 0),
    {
        self.unexplained.len() > 0
    }
}

proof fn lemma_occurrences_are_part_of_the_total(
    i: int,
    sigs: Seq<(SignatureModel, usize)>,
    n: nat,
)
    ensures
        occurrences_of(i, sigs, n) <= total_of(sigs, n),
        count_of(i, sigs, n) <= n,
    decreases n,
{
    if n > 0 {
        lemma_occurrences_are_part_of_the_total(i, sigs, (n - 1) as nat);
    }
}

proof fn lemma_totals_grow(sigs: Seq<(SignatureModel, usize)>, a: nat, b: nat)
    requires
        a <= b,
    ensures
        total_of(sigs, a) <= total_of(sigs, b),
    decreases b,
{
    if a < b {
        lemma_totals_grow(sigs, a, (b - 1) as nat);
    }
}

/// What one problem accounts for.
fn tally(i: usize, signatures: &[(Signature, usize)]) -> (r: (usize, usize))
    requires
        i < PROBLEM_COUNT,
        total_of(seen(signatures@), signatures@.len()) <= usize::MAX,
    ensures
        r.0 == count_of(i as int, seen(signatures@), signatures@.len()),
        r.1 == occurrences_of(i as int, seen(signatures@), signatures@.len()),
{
    let ghost sigs = seen(signatures@);
    let problem: Problem = problem_at(i);
    let mut count: usize = 0;
    let mut occurrences: usize = 0;
    let mut k: usize = 0;
    while k < signatures.len()
        invariant
            k <= signatures.len(),
            sigs == seen(signatures@),
            is_problem(problem, i as int),
            total_of(sigs, signatures@.len()) <= usize::MAX,
            count <= k,
            count == count_of(i as int, sigs, k as nat),
            occurrences == occurrences_of(i as int, sigs, k as nat),
        decreases signatures.len() - k,
    {
        proof {
            assert(sigs[k as int] == (signatures@[k as int].0@, signatures@[k as int].1));
            lemma_occurrences_are_part_of_the_total(i as int, sigs, (k + 1) as nat);
            lemma_totals_grow(sigs, (k + 1) as nat, signatures@.len());
        }
        if problem.covers(&signatures[k].0) {
            count += 1;
            occurrences += signatures[k].1;
        }
        k += 1;
    }
    (count, occurrences)
}

/// Whether a signature belongs to one of the known problems.
fn is_explained(signature: &Signature) -> (r: bool)
    ensures
        r == explained(signature@),
{
    problem_at(0).covers(signature) || problem_at(1).covers(signature) || problem_at(2).covers(
        signature,
    ) || problem_at(3).covers(signature)
}

/// Groups signatures, each paired with how many times it occurred. The problems come in the order
/// of the table and what is unexplained comes sorted, so that neither depends on the order in which
/// things were found.
pub fn group(signatures: &[(Signature, usize)]) -> (r: Grouping)
    requires
        total_of(seen(signatures@), signatures@.len()) <= usize::MAX,
    ensures
        ({
            let sigs = seen(signatures@);
            let matched = matched_upto(sigs, 4);
            &&& r.matched@.len() == matched.len()
            &&& forall|k: int|
                0 <= k < matched.len() ==> is_problem((#[trigger] r.matched@[k]).0, matched[k].0)
                    && r.matched@[k].1 == matched[k].1 && r.matched@[k].2 == matched[k].2
            &&& counted(r.unexplained@) == sort_counted(unexplained_upto(sigs, sigs.len()))
        }),
{
    let ghost sigs = seen(signatures@);
    let mut matched: Vec<(Problem, usize, usize)> = Vec::new();
    let mut i: usize = 0;
    while i < PROBLEM_COUNT
        invariant
            i <= PROBLEM_COUNT,
            sigs == seen(signatures@),
            total_of(sigs, signatures@.len()) <= usize::MAX,
            matched@.len() == matched_upto(sigs, i as nat).len(),
            forall|k: int|
                0 <= k < matched@.len() ==> is_problem(
                    (#[trigger] matched@[k]).0,
                    matched_upto(sigs, i as nat)[k].0,
                ) && matched@[k].1 == matched_upto(sigs, i as nat)[k].1 && matched@[k].2
                    == matched_upto(sigs, i as nat)[k].2,
        decreases PROBLEM_COUNT - i,
    {
        let (count, occurrences): (usize, usize) = tally(i, signatures);
        if count > 0 {
            matched.push((problem_at(i), count, occurrences));
        }
        i += 1;
    }
    let mut unexplained: Vec<(String, usize)> = Vec::new();
    let mut k: usize = 0;
    assert(counted(unexplained@) =~= unexplained_upto(sigs, 0));
    while k < signatures.len()
        invariant
            k <= signatures.len(),
            sigs == seen(signatures@),
            counted(unexplained@) == unexplained_upto(sigs, k as nat),
        decreases signatures.len() - k,
    {
        let ghost before = counted(unexplained@);
        assert(sigs[k as int] == (signatures@[k as int].0@, signatures@[k as int].1));
        if !is_explained(&signatures[k].0) {
            unexplained.push((signatures[k].0.key(), signatures[k].1));
            assert(counted(unexplained@) =~= before.push(
                (sigs[k as int].0.key(), sigs[k as int].1),
            ));
        }
        k += 1;
    }
    Grouping { matched, unexplained: sort_named_counts(&unexplained) }
}

// ---- laws ----

proof fn lemma_operators_differ()
    ensures
        "Sign"@ != "Where"@,
        "Sign"@ != "Reshape"@,
        "Sign"@ != "Div"@,
        "Where"@ != "Reshape"@,
        "Where"@ != "Div"@,
        "Reshape"@ != "Div"@,
{
    reveal_strlit("Sign");
    reveal_strlit("Where");
    reveal_strlit("Reshape");
    reveal_strlit("Div");
    assert("Sign"@.len() == 4 && "Where"@.len() == 5 && "Reshape"@.len() == 7 && "Div"@.len() == 3);
}

/// No two problems claim the same signature.
pub proof fn lemma_problems_do_not_overlap(i: int, j: int, s: SignatureModel)
    requires
        0 <= i < PROBLEM_COUNT,
        0 <= j < PROBLEM_COUNT,
        of_problem(i, s),
        of_problem(j, s),
    ensures
        i == j,
{
    lemma_operators_differ();
    assert(i == 0 || i == 1 || i == 2 || i == 3);
    assert(j == 0 || j == 1 || j == 2 || j == 3);
}

/// The grouping loses no signature and counts none twice: each belongs to exactly one problem or
/// is unexplained.
pub proof fn lemma_every_signature_is_accounted_for(sigs: Seq<(SignatureModel, usize)>, n: nat)
    requires
        n <= sigs.len(),
    ensures
        count_of(0, sigs, n) + count_of(1, sigs, n) + count_of(2, sigs, n) + count_of(3, sigs, n)
            + unexplained_upto(sigs, n).len() == n,
    decreases n,
{
    if n > 0 {
        lemma_every_signature_is_accounted_for(sigs, (n - 1) as nat);
        lemma_operators_differ();
    }
}

/// There are never more problems than signatures.
pub proof fn lemma_grouping_does_not_inflate(sigs: Seq<(SignatureModel, usize)>)
    ensures
        matched_upto(sigs, 4).len() + unexplained_upto(sigs, sigs.len()).len() <= sigs.len(),
{
    lemma_every_signature_is_accounted_for(sigs, sigs.len());
    reveal_with_fuel(matched_upto, 5);
}

} // verus!
