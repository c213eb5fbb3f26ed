//! What evidence amounts to: how counts are taken, when a rule is a trigger, which cases may be
//! held against which, and what is taken to be a legal difference.

use vstd::prelude::*;

use crate::case::{CaseModel, ElemType, OnnxCase, OpKind};
use crate::features::{feature_word, measurable};
use crate::known::{applicable_upto, applies, operators_of, position_from, types_of, Way, IDS, WAYS};
use crate::negatives::{breakdown_of, breakdown_upto, drawn_like, hits_of, seen_on, total_of};
use crate::negatives::{totals_upto, NegativeModel, Provenance, Source, SOURCES};
use crate::predicate::Predicate;
use crate::rule_validation::{diverged_among, matched_among, outcome_of, percent, selects, Outcome};
use crate::search_laws::{accepts, lemma_a_rule_fires_place_by_place};
use crate::validation_laws::takes_type;

verus! {

// ---- verdicts on rules ----

/// A verdict takes thirty matched cases, and a rule is a trigger where at least half of them
/// diverged.
pub proof fn lemma_half_of_thirty_make_a_trigger(matched: nat, diverged: nat)
    ensures
        outcome_of(matched, diverged) == Outcome::NeverSampled <==> matched == 0,
        outcome_of(matched, diverged) == Outcome::Inconclusive <==> 1 <= matched <= 29,
        outcome_of(matched, diverged) == Outcome::Trigger <==> matched >= 30 && diverged + diverged
            >= matched,
        outcome_of(matched, diverged) == Outcome::Coincidence <==> matched >= 30 && diverged
            + diverged < matched,
{
}

/// A rate in percent is off by no more than half of one, and where it is off by exactly half it is
/// even.
pub proof fn lemma_a_rate_is_rounded_to_the_nearest(part: nat, whole: nat)
    requires
        whole > 0,
    ensures
        -(whole as int) <= 2 * (100 * part - percent(part, whole) * whole) <= whole,
        2 * (100 * part - percent(part, whole) * whole) == whole || 2 * (100 * part - percent(
            part,
            whole,
        ) * whole) == -(whole as int) ==> percent(part, whole) % 2 == 0,
        percent(whole, whole) == 100,
        percent(0, whole) == 0,
{
    let n = (100 * part) as int;
    let w = whole as int;
    let (low, rest) = (n / w, n % w);
    vstd::arithmetic::div_mod::lemma_fundamental_div_mod(n, w);
    vstd::arithmetic::div_mod::lemma_mod_bound(n, w);
    assert((low + 1) * w == low * w + w) by (nonlinear_arith);
    assert(w * low == low * w) by (nonlinear_arith);
    vstd::arithmetic::div_mod::lemma_fundamental_div_mod_converse(100 * w, w, 100, 0);
    vstd::arithmetic::div_mod::lemma_fundamental_div_mod_converse(0, w, 0, 0);
}

/// A rule selects a case that can be measured and of whose features it accepts the word.
pub proof fn lemma_a_rule_selects_by_features(p: Predicate, c: CaseModel)
    ensures
        selects(p, c) == (measurable(c) && accepts(p, feature_word(c))),
{
    lemma_a_rule_fires_place_by_place(p, feature_word(c));
}

/// The positions below a bound.
pub open spec fn below(n: nat) -> Seq<int> {
    Seq::new(n, |i: int| i)
}

proof fn lemma_below(n: nat, f: spec_fn(int) -> bool)
    requires
        n > 0,
    ensures
        below(n).filter(f).len() == below((n - 1) as nat).filter(f).len() + if f(n - 1) {
            1nat
        } else {
            0nat
        },
{
    assert(below(n) =~= below((n - 1) as nat).push(n - 1));
    below((n - 1) as nat).lemma_filter_push(n - 1, f);
}

/// What a validation counts: the cases that the rule selects, and those among them that diverged.
pub proof fn lemma_a_validation_counts_what_it_saw(
    p: Predicate,
    cases: Seq<OnnxCase>,
    verdicts: Seq<bool>,
    n: nat,
)
    ensures
        matched_among(p, cases, n) == below(n).filter(
            |i: int| measurable(cases[i]@) && accepts(p, feature_word(cases[i]@)),
        ).len(),
        diverged_among(p, cases, verdicts, n) == below(n).filter(
            |i: int|
                measurable(cases[i]@) && accepts(p, feature_word(cases[i]@)) && verdicts[i],
        ).len(),
    decreases n,
{
    reveal(Seq::filter);
    let f = |i: int| measurable(cases[i]@) && accepts(p, feature_word(cases[i]@));
    let g = |i: int| measurable(cases[i]@) && accepts(p, feature_word(cases[i]@)) && verdicts[i];
    if n > 0 {
        lemma_a_validation_counts_what_it_saw(p, cases, verdicts, (n - 1) as nat);
        lemma_a_rule_selects_by_features(p, cases[n - 1]@);
        lemma_below(n, f);
        lemma_below(n, g);
    }
}

// ---- what may be held against what ----

/// Sets of cases may be scored against each other where both origins are known, and they are the
/// same or one was built by hand.
pub proof fn lemma_origins_that_compare(a: Provenance, b: Provenance)
    ensures
        a.comparable(b) == b.comparable(a),
        !a.comparable(Provenance::Unknown),
        a.comparable(a) <==> a != Provenance::Unknown,
        a.comparable(Provenance::Constructed) <==> a != Provenance::Unknown,
        a != b && a != Provenance::Constructed && b != Provenance::Constructed ==> !a.comparable(b),
{
}

/// A negative is kept exactly where it was seen on the very runtimes of the findings, on at least
/// one, and is hand-built or was drawn from the very same description.
pub proof fn lemma_a_negative_is_kept(
    all: Seq<NegativeModel>,
    runtimes: Seq<Seq<char>>,
    generator: Seq<char>,
    n: NegativeModel,
)
    ensures
        all.filter(seen_on(runtimes)).filter(drawn_like(generator)).contains(n) <==> all.contains(n)
            && n.runtimes == runtimes && runtimes.len() > 0 && (n.provenance
            == Provenance::Constructed || (n.provenance != Provenance::Unknown && n.generator
            == generator)),
{
    let (f, g) = (seen_on(runtimes), drawn_like(generator));
    lemma_filtered(all, f, n);
    lemma_filtered(all.filter(f), g, n);
}

proof fn lemma_filtered(s: Seq<NegativeModel>, f: spec_fn(NegativeModel) -> bool, x: NegativeModel)
    ensures
        s.filter(f).contains(x) == (s.contains(x) && f(x)),
{
    if s.contains(x) && f(x) {
        let i = choose|i: int| 0 <= i < s.len() && s[i] == x;
        s.lemma_filter_contains(f, i);
    }
    if s.filter(f).contains(x) {
        let i = choose|i: int| 0 <= i < s.filter(f).len() && s.filter(f)[i] == x;
        s.lemma_filter_pred(f, i);
        s.lemma_filter_contains_rev(f, x);
    }
}

proof fn lemma_counted(sources: Seq<Source>, hits: Seq<bool>, source: Source, n: nat)
    ensures
        total_of(sources, source, n) == below(n).filter(|i: int| sources[i] == source).len(),
        hits_of(sources, hits, source, n) == below(n).filter(
            |i: int| sources[i] == source && hits[i],
        ).len(),
        hits_of(sources, hits, source, n) <= total_of(sources, source, n) <= n,
    decreases n,
{
    reveal(Seq::filter);
    if n > 0 {
        lemma_counted(sources, hits, source, (n - 1) as nat);
        lemma_below(n, |i: int| sources[i] == source);
        lemma_below(n, |i: int| sources[i] == source && hits[i]);
    }
}

proof fn lemma_breakdown_upto(sources: Seq<Source>, hits: Seq<bool>, n: nat, k: int)
    requires
        n <= 4,
        0 <= k < n,
    ensures
        ({
            let s = SOURCES[k];
            let total = total_of(sources, s, sources.len());
            let hit = hits_of(sources, hits, s, sources.len());
            &&& total > 0 ==> breakdown_upto(sources, hits, n).contains(
                (s, hit as usize, total as usize),
            )
            &&& total > 0 ==> totals_upto(sources, n).contains((s, total as usize))
        }),
    decreases n,
{
    let s = SOURCES[k];
    let total = total_of(sources, s, sources.len());
    let hit = hits_of(sources, hits, s, sources.len());
    let row = (s, hit as usize, total as usize);
    let sum = (s, total as usize);
    let rest = breakdown_upto(sources, hits, (n - 1) as nat);
    let all = breakdown_upto(sources, hits, n);
    let sums = totals_upto(sources, (n - 1) as nat);
    let every = totals_upto(sources, n);
    if total > 0 {
        if k == n - 1 {
            assert(all[rest.len() as int] == row);
            assert(every[sums.len() as int] == sum);
        } else {
            lemma_breakdown_upto(sources, hits, (n - 1) as nat, k);
            let i = choose|i: int| 0 <= i < rest.len() && rest[i] == row;
            assert(all[i] == row);
            let j = choose|j: int| 0 <= j < sums.len() && sums[j] == sum;
            assert(every[j] == sum);
        }
    }
}

/// Every source that occurs has a line, with how many of its negatives are hit and how many there
/// are.
pub proof fn lemma_every_source_has_its_line(sources: Seq<Source>, hits: Seq<bool>, i: int)
    requires
        sources.len() <= usize::MAX,
        hits.len() == sources.len(),
        0 <= i < sources.len(),
    ensures
        ({
            let s = sources[i];
            let total = below(sources.len()).filter(|k: int| sources[k] == s).len();
            let hit = below(sources.len()).filter(|k: int| sources[k] == s && hits[k]).len();
            &&& total > 0
            &&& breakdown_of(sources, hits).contains((s, hit as usize, total as usize))
            &&& totals_upto(sources, 4).contains((s, total as usize))
        }),
{
    let s = sources[i];
    let f = |k: int| sources[k] == s;
    lemma_counted(sources, hits, s, sources.len());
    assert(below(sources.len())[i] == i);
    below(sources.len()).lemma_filter_contains(f, i);
    assert(SOURCES[0] == Source::NearMiss && SOURCES[1] == Source::Constructed && SOURCES[2]
        == Source::Interesting && SOURCES[3] == Source::Ordinary);
    let k: int = match s {
        Source::NearMiss => 0,
        Source::Constructed => 1,
        Source::Interesting => 2,
        Source::Ordinary => 3,
    };
    lemma_breakdown_upto(sources, hits, 4, k);
}

proof fn lemma_lines(sources: Seq<Source>, hits: Seq<bool>, n: nat, i: int)
    requires
        n <= 4,
        0 <= i < breakdown_upto(sources, hits, n).len(),
    ensures
        ({
            let row = breakdown_upto(sources, hits, n)[i];
            &&& total_of(sources, row.0, sources.len()) > 0
            &&& row.1 == hits_of(sources, hits, row.0, sources.len()) as usize
            &&& row.2 == total_of(sources, row.0, sources.len()) as usize
        }),
    decreases n,
{
    if n > 0 && i < breakdown_upto(sources, hits, (n - 1) as nat).len() {
        lemma_lines(sources, hits, (n - 1) as nat, i);
    }
}

/// A line stands for negatives that are there: none is empty, and no more are hit than there are.
pub proof fn lemma_no_line_is_empty(sources: Seq<Source>, hits: Seq<bool>, i: int)
    requires
        sources.len() <= usize::MAX,
        hits.len() == sources.len(),
        0 <= i < breakdown_of(sources, hits).len(),
    ensures
        ({
            let (s, hit, total) = breakdown_of(sources, hits)[i];
            &&& 0 < total
            &&& hit <= total <= sources.len()
            &&& total == below(sources.len()).filter(|k: int| sources[k] == s).len()
            &&& hit == below(sources.len()).filter(|k: int| sources[k] == s && hits[k]).len()
        }),
{
    lemma_lines(sources, hits, 4, i);
    lemma_counted(sources, hits, breakdown_of(sources, hits)[i].0, sources.len());
}

// ---- legal differences ----

/// The length and the first letter of an identifier.
spec fn mark_of(i: int) -> (nat, char) {
    if i == 0 {
        (11, 'n')
    } else if i == 1 {
        (24, 'i')
    } else if i == 2 {
        (11, 'm')
    } else if i == 3 {
        (25, 'i')
    } else if i == 4 {
        (19, 'm')
    } else if i == 5 {
        (11, 's')
    } else if i == 6 {
        (25, 'q')
    } else if i == 7 {
        (28, 'd')
    } else if i == 8 {
        (17, 'c')
    } else if i == 9 {
        (22, 'o')
    } else {
        (21, 's')
    }
}

proof fn lemma_mark_of(i: int)
    requires
        0 <= i < 11,
    ensures
        IDS[i]@.len() == mark_of(i).0,
        IDS[i]@[0] == mark_of(i).1,
{
    if i == 0 {
        reveal_strlit("nan-payload");
        assert(IDS[0]@ == "nan-payload"@);
    }
    if i == 1 {
        reveal_strlit("integer-division-by-zero");
        assert(IDS[1]@ == "integer-division-by-zero"@);
    }
    if i == 2 {
        reveal_strlit("max-min-nan");
        assert(IDS[2]@ == "max-min-nan"@);
    }
    if i == 3 {
        reveal_strlit("integer-division-overflow");
        assert(IDS[3]@ == "integer-division-overflow"@);
    }
    if i == 4 {
        reveal_strlit("max-min-signed-zero");
        assert(IDS[4]@ == "max-min-signed-zero"@);
    }
    if i == 5 {
        reveal_strlit("sign-of-nan");
        assert(IDS[5]@ == "sign-of-nan"@);
    }
    if i == 6 {
        reveal_strlit("quantize-non-finite-input");
        assert(IDS[6]@ == "quantize-non-finite-input"@);
    }
    if i == 7 {
        reveal_strlit("dynamic-quantize-empty-input");
        assert(IDS[7]@ == "dynamic-quantize-empty-input"@);
    }
    if i == 8 {
        reveal_strlit("cast-out-of-range");
        assert(IDS[8]@ == "cast-out-of-range"@);
    }
    if i == 9 {
        reveal_strlit("ort-optimization-level");
        assert(IDS[9]@ == "ort-optimization-level"@);
    }
    if i == 10 {
        reveal_strlit("semantic-opset-change");
        assert(IDS[10]@ == "semantic-opset-change"@);
    }
}

/// The identifiers tell the entries apart.
pub proof fn lemma_identifiers_differ(i: int, j: int)
    requires
        0 <= i < j < 11,
    ensures
        IDS[i]@ != IDS[j]@,
{
    lemma_mark_of(i);
    lemma_mark_of(j);
}

proof fn lemma_position_from(id: Seq<char>, i: int, at: int)
    requires
        0 <= at <= i < 11,
        IDS[i]@ == id,
    ensures
        position_from(id, at) == i,
    decreases i - at,
{
    if at < i {
        lemma_identifiers_differ(at, i);
        lemma_position_from(id, i, at + 1);
    }
}

proof fn lemma_no_position(id: Seq<char>, at: int)
    requires
        0 <= at <= 11,
        forall|i: int| 0 <= i < 11 ==> (#[trigger] IDS[i])@ != id,
    ensures
        position_from(id, at) == 11,
    decreases 11 - at,
{
    if at < 11 {
        assert(IDS[at]@ != id);
        lemma_no_position(id, at + 1);
    }
}

/// An entry is found by its own identifier, and nothing by another.
pub proof fn lemma_an_entry_is_found_by_its_identifier(id: Seq<char>, i: int)
    ensures
        0 <= i < 11 && IDS[i]@ == id ==> position_from(id, 0) == i,
        (forall|k: int| 0 <= k < 11 ==> (#[trigger] IDS[k])@ != id) ==> position_from(id, 0) == 11,
{
    if 0 <= i < 11 && IDS[i]@ == id {
        lemma_position_from(id, i, 0);
    }
    if forall|k: int| 0 <= k < 11 ==> (#[trigger] IDS[k])@ != id {
        lemma_no_position(id, 0);
    }
}

/// Whether what an entry with an identifier describes can arise for an operator.
pub open spec fn concerns(id: Seq<char>, op: OpKind) -> bool {
    if id == "integer-division-by-zero"@ || id == "integer-division-overflow"@ {
        op == OpKind::Div
    } else if id == "max-min-nan"@ || id == "max-min-signed-zero"@ {
        op == OpKind::Max || op == OpKind::Min
    } else if id == "sign-of-nan"@ {
        op == OpKind::Sign
    } else if id == "quantize-non-finite-input"@ {
        op == OpKind::QuantizeLinear || op == OpKind::DynamicQuantizeLinear
    } else if id == "dynamic-quantize-empty-input"@ {
        op == OpKind::DynamicQuantizeLinear
    } else if id == "cast-out-of-range"@ {
        op == OpKind::Cast
    } else {
        true
    }
}

/// An entry is found for an operator exactly where what it describes can arise for it.
pub proof fn lemma_entries_apply_where_they_arise(i: int, op: OpKind)
    requires
        0 <= i < 11,
    ensures
        applies(i, op) == concerns(IDS[i]@, op),
        applicable_upto(op, 11).contains(i) == concerns(IDS[i]@, op),
{
    assert forall|a: int, b: int| 0 <= a < b < 11 implies IDS[a]@ != IDS[b]@ by {
        lemma_identifiers_differ(a, b);
    }
    assert(IDS[0]@ == "nan-payload"@ && IDS[1]@ == "integer-division-by-zero"@ && IDS[2]@
        == "max-min-nan"@ && IDS[3]@ == "integer-division-overflow"@ && IDS[4]@
        == "max-min-signed-zero"@ && IDS[5]@ == "sign-of-nan"@ && IDS[6]@
        == "quantize-non-finite-input"@ && IDS[7]@ == "dynamic-quantize-empty-input"@ && IDS[8]@
        == "cast-out-of-range"@ && IDS[9]@ == "ort-optimization-level"@ && IDS[10]@
        == "semantic-opset-change"@);
    let s = operators_of(i);
    if s.len() > 0 {
        assert(s.contains(s[0]));
    }
    if s.len() > 1 {
        assert(s.contains(s[1]));
    }
    lemma_applicable(op, 11, i);
}

proof fn lemma_applicable(op: OpKind, n: nat, i: int)
    requires
        0 <= i,
    ensures
        applicable_upto(op, n).contains(i) == (i < n && applies(i, op)),
    decreases n,
{
    if n > 0 {
        lemma_applicable(op, (n - 1) as nat, i);
        let rest = applicable_upto(op, (n - 1) as nat);
        let all = applicable_upto(op, n);
        if rest.contains(i) {
            let k = choose|k: int| 0 <= k < rest.len() && rest[k] == i;
            assert(all[k] == i);
        }
        if i == n - 1 && applies(i, op) {
            assert(all[rest.len() as int] == i);
        }
        if all.contains(i) {
            let k = choose|k: int| 0 <= k < all.len() && all[k] == i;
            if k < rest.len() {
                assert(rest[k] == i);
            }
        }
    }
}

/// An entry that names operators and types names types that those operators take. What is about
/// infinities, signed zeros and values that are not numbers is about floating point types, and
/// what is about division by zero and overflow about integers.
pub proof fn lemma_entries_name_types_that_occur(i: int, op: OpKind, t: ElemType)
    requires
        0 <= i < 11,
        operators_of(i).contains(op),
        types_of(i).contains(t),
    ensures
        takes_type(op, t),
        op == OpKind::Div <==> t == ElemType::I32 || t == ElemType::I64,
{
}

/// Where the answer is not determined the case is never generated: every entry that names an
/// operator is declined, and of the rest one is forgiven and two are out of reach.
pub proof fn lemma_what_is_not_determined_is_declined(i: int)
    requires
        0 <= i < 11,
    ensures
        operators_of(i).len() > 0 <==> WAYS[i] == Way::Declined,
        WAYS[i] == Way::Forgiven <==> IDS[i]@ == "nan-payload"@,
{
    if i > 0 {
        lemma_identifiers_differ(0, i);
    }
    assert(WAYS[0] == Way::Forgiven && WAYS[1] == Way::Declined && WAYS[2] == Way::Declined
        && WAYS[3] == Way::Declined && WAYS[4] == Way::Declined && WAYS[5] == Way::Declined
        && WAYS[6] == Way::Declined && WAYS[7] == Way::Declined && WAYS[8] == Way::Declined
        && WAYS[9] == Way::Excluded && WAYS[10] == Way::Excluded);
}

} // verus!
