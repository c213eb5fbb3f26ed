//! What the comparison of answers and the verdict on a case amount to, said of the outcomes
//! themselves: of numbers, of bit fields and of the kinds of outcomes.

use vstd::prelude::*;

use crate::case::{CaseModel, DataModel, ElemType, TensorModel};
use crate::normalize::{agree, agreement, canon_of, element_agreement, normal_form, same_form};
use crate::normalize::{tensor_agreement, Agreement};
use crate::oracle::{all_degenerate, is_comparable, lemma_agreement_is_evidence};
use crate::oracle::{lemma_divergence_does_not_depend_on_order, most_licensed, verdict_of};
use crate::oracle::{NamedModel, SkipReason, VerdictModel};
use crate::outcome::OutcomeModel;

verus! {

// ---- elements ----

/// Whether a single-precision pattern has an exponent field of ones and a fraction that is not
/// zero.
pub open spec fn single_nan(b: int) -> bool {
    (b / 0x80_0000) % 0x100 == 0xff && b % 0x80_0000 != 0
}

/// Whether a double-precision pattern has an exponent field of ones and a fraction that is not
/// zero.
pub open spec fn double_nan(b: int) -> bool {
    (b / 0x10_0000_0000_0000) % 0x800 == 0x7ff && b % 0x10_0000_0000_0000 != 0
}

/// Whether a single-precision pattern stands for a number: its exponent field is not all ones.
pub open spec fn single_number(b: int) -> bool {
    (b / 0x80_0000) % 0x100 != 0xff
}

/// Whether a double-precision pattern stands for a number.
pub open spec fn double_number(b: int) -> bool {
    (b / 0x10_0000_0000_0000) % 0x800 != 0x7ff
}

proof fn lemma_single_nan(b: u32)
    ensures
        crate::bits::f32_is_nan(b) == single_nan(b as int),
        crate::bits::f32_is_finite(b) == single_number(b as int),
{
}

proof fn lemma_double_nan(b: u64)
    ensures
        crate::bits::f64_is_nan(b) == double_nan(b as int),
        crate::bits::f64_is_finite(b) == double_number(b as int),
{
}

proof fn lemma_low_half(bits: u64)
    ensures
        single_nan((bits as u32) as int) == single_nan(bits as int),
{
    assert((bits as u32) == bits % 0x1_0000_0000) by (bit_vector);
}

/// Two elements agree exactly where their bits are the same, and by license where they differ and
/// both are `NaN`s of a floating-point type. Nothing else is forgiven: an integer or a truth value
/// with other bits is another value.
pub proof fn lemma_elements_agree_by_their_bits(elem: ElemType, left: u64, right: u64)
    ensures
        element_agreement(elem, left, right) == Agreement::Exactly <==> left == right,
        element_agreement(elem, left, right) == Agreement::ByLicense <==> left != right && ((elem
            == ElemType::F32 && single_nan(left as int) && single_nan(right as int)) || (elem
            == ElemType::F64 && double_nan(left as int) && double_nan(right as int))),
        elem != ElemType::F32 && elem != ElemType::F64 && left != right ==> element_agreement(
            elem,
            left,
            right,
        ) == Agreement::No,
{
    lemma_single_nan(left as u32);
    lemma_single_nan(right as u32);
    lemma_low_half(left);
    lemma_low_half(right);
    lemma_double_nan(left);
    lemma_double_nan(right);
}

// ---- answers ----

/// Whether two tensors are the same answer: one shape, one type, and at every position the same
/// number, or the same bits, or a `NaN` on both sides.
pub open spec fn same_answer(x: TensorModel, y: TensorModel) -> bool {
    x.dims == y.dims && match (x.data, y.data) {
        (DataModel::F32(v), DataModel::F32(w)) => v.len() == w.len() && forall|k: int|
            0 <= k < v.len() ==> (#[trigger] v[k]) == w[k] || (single_nan(v[k] as int)
                && single_nan(w[k] as int)),
        (DataModel::F64(v), DataModel::F64(w)) => v.len() == w.len() && forall|k: int|
            0 <= k < v.len() ==> (#[trigger] v[k]) == w[k] || (double_nan(v[k] as int)
                && double_nan(w[k] as int)),
        (DataModel::I32(v), DataModel::I32(w)) => v == w,
        (DataModel::I64(v), DataModel::I64(w)) => v == w,
        (DataModel::I8(v), DataModel::I8(w)) => v == w,
        (DataModel::U8(v), DataModel::U8(w)) => v == w,
        (DataModel::Bool(v), DataModel::Bool(w)) => v == w,
        _ => false,
    }
}

proof fn lemma_same_answer(x: TensorModel, y: TensorModel)
    ensures
        tensor_agreement(canon_of(x), canon_of(y)) != Agreement::No <==> same_answer(x, y),
        tensor_agreement(canon_of(x), canon_of(y)) == Agreement::Exactly <==> x.dims == y.dims
            && x.data == y.data,
{
    let a = canon_of(x);
    let b = canon_of(y);
    if same_form(a, b) {
        assert forall|e: int| 0 <= e < a.bits.len() implies (#[trigger] element_agreement(
            a.elem_type,
            a.bits[e],
            b.bits[e],
        ) != Agreement::No) == (match (x.data, y.data) {
            (DataModel::F32(v), DataModel::F32(w)) => v[e] == w[e] || (single_nan(v[e] as int)
                && single_nan(w[e] as int)),
            (DataModel::F64(v), DataModel::F64(w)) => v[e] == w[e] || (double_nan(v[e] as int)
                && double_nan(w[e] as int)),
            (DataModel::I32(v), DataModel::I32(w)) => v[e] == w[e],
            (DataModel::I64(v), DataModel::I64(w)) => v[e] == w[e],
            (DataModel::I8(v), DataModel::I8(w)) => v[e] == w[e],
            (DataModel::U8(v), DataModel::U8(w)) => v[e] == w[e],
            (DataModel::Bool(v), DataModel::Bool(w)) => v[e] == w[e],
            _ => false,
        }) by {
            lemma_elements_agree_by_their_bits(a.elem_type, a.bits[e], b.bits[e]);
        }
        match (x.data, y.data) {
            (DataModel::F32(v), DataModel::F32(w)) => {
                assert(same_answer(x, y) ==> forall|e: int|
                    0 <= e < v.len() ==> #[trigger] element_agreement(
                        a.elem_type,
                        a.bits[e],
                        b.bits[e],
                    ) != Agreement::No);
                assert forall|k: int|
                    0 <= k < v.len() && tensor_agreement(a, b) != Agreement::No implies (
                #[trigger] v[k]) == w[k] || (single_nan(v[k] as int) && single_nan(w[k] as int)) by {
                    assert(element_agreement(a.elem_type, a.bits[k], b.bits[k]) != Agreement::No);
                }
            },
            (DataModel::F64(v), DataModel::F64(w)) => {
                assert forall|k: int|
                    0 <= k < v.len() && tensor_agreement(a, b) != Agreement::No implies (
                #[trigger] v[k]) == w[k] || (double_nan(v[k] as int) && double_nan(w[k] as int)) by {
                    assert(element_agreement(a.elem_type, a.bits[k], b.bits[k]) != Agreement::No);
                }
            },
            (DataModel::I32(v), DataModel::I32(w)) => {
                if tensor_agreement(a, b) != Agreement::No {
                    assert forall|k: int| 0 <= k < v.len() implies v[k] == w[k] by {
                        assert(element_agreement(a.elem_type, a.bits[k], b.bits[k])
                            != Agreement::No);
                    }
                    assert(v =~= w);
                }
            },
            (DataModel::I64(v), DataModel::I64(w)) => {
                if tensor_agreement(a, b) != Agreement::No {
                    assert forall|k: int| 0 <= k < v.len() implies v[k] == w[k] by {
                        assert(element_agreement(a.elem_type, a.bits[k], b.bits[k])
                            != Agreement::No);
                    }
                    assert(v =~= w);
                }
            },
            (DataModel::I8(v), DataModel::I8(w)) => {
                if tensor_agreement(a, b) != Agreement::No {
                    assert forall|k: int| 0 <= k < v.len() implies v[k] == w[k] by {
                        assert(element_agreement(a.elem_type, a.bits[k], b.bits[k])
                            != Agreement::No);
                    }
                    assert(v =~= w);
                }
            },
            (DataModel::U8(v), DataModel::U8(w)) => {
                if tensor_agreement(a, b) != Agreement::No {
                    assert forall|k: int| 0 <= k < v.len() implies v[k] == w[k] by {
                        assert(element_agreement(a.elem_type, a.bits[k], b.bits[k])
                            != Agreement::No);
                    }
                    assert(v =~= w);
                }
            },
            (DataModel::Bool(v), DataModel::Bool(w)) => {
                if tensor_agreement(a, b) != Agreement::No {
                    assert forall|k: int| 0 <= k < v.len() implies v[k] == w[k] by {
                        assert(element_agreement(a.elem_type, a.bits[k], b.bits[k])
                            != Agreement::No);
                    }
                    assert(v =~= w);
                }
            },
            _ => {},
        }
        if a.bits == b.bits {
            crate::case::lemma_bits_identify_data(x.data, y.data);
        }
    }
}

/// Two outcomes agree exactly where they are the same kind of failure, or where both produced as
/// many tensors and each is the same answer as its counterpart. What a failure says is not
/// compared.
pub proof fn lemma_outcomes_agree_by_their_values(a: OutcomeModel, b: OutcomeModel)
    ensures
        agree(normal_form(a), normal_form(b)) <==> match (a, b) {
            (OutcomeModel::Produced(x), OutcomeModel::Produced(y)) => x.len() == y.len()
                && forall|t: int| 0 <= t < x.len() ==> same_answer(#[trigger] x[t], y[t]),
            (OutcomeModel::Rejected(_), OutcomeModel::Rejected(_)) => true,
            (OutcomeModel::Unsupported(_), OutcomeModel::Unsupported(_)) => true,
            (OutcomeModel::Crashed(_), OutcomeModel::Crashed(_)) => true,
            (OutcomeModel::TimedOut(_), OutcomeModel::TimedOut(_)) => true,
            _ => false,
        },
        (a is Produced && b is Produced && agreement(normal_form(a), normal_form(b))
            == Agreement::Exactly) ==> a->Produced_0.len() == b->Produced_0.len() && forall|t: int|
            0 <= t < a->Produced_0.len() ==> (#[trigger] a->Produced_0[t]).dims
                == b->Produced_0[t].dims && a->Produced_0[t].data == b->Produced_0[t].data,
{
    lemma_kinds_differ();
    match (a, b) {
        (OutcomeModel::Produced(x), OutcomeModel::Produced(y)) => {
            let l = normal_form(a).tensors;
            let r = normal_form(b).tensors;
            assert(l.len() == x.len() && r.len() == y.len());
            if x.len() == y.len() {
                assert forall|t: int| 0 <= t < x.len() implies (tensor_agreement(l[t], r[t])
                    != Agreement::No) == same_answer(#[trigger] x[t], y[t]) && (tensor_agreement(
                    l[t],
                    r[t],
                ) == Agreement::Exactly ==> x[t].dims == y[t].dims && x[t].data == y[t].data) by {
                    lemma_same_answer(x[t], y[t]);
                }
                if agree(normal_form(a), normal_form(b)) {
                    assert forall|t: int| 0 <= t < x.len() implies same_answer(
                        #[trigger] x[t],
                        y[t],
                    ) by {
                        assert(tensor_agreement(l[t], r[t]) != Agreement::No);
                    }
                }
                if agreement(normal_form(a), normal_form(b)) == Agreement::Exactly {
                    assert forall|t: int| 0 <= t < x.len() implies (#[trigger] x[t]).dims
                        == y[t].dims && x[t].data == y[t].data by {
                        assert(tensor_agreement(l[t], r[t]) != Agreement::No);
                        assert(tensor_agreement(l[t], r[t]) != Agreement::ByLicense);
                    }
                }
            }
        },
        _ => {},
    }
}

proof fn lemma_kinds_differ()
    ensures
        "ok"@ != "rejected"@,
        "ok"@ != "unsupported"@,
        "ok"@ != "crashed"@,
        "ok"@ != "timed-out"@,
        "rejected"@ != "unsupported"@,
        "rejected"@ != "crashed"@,
        "rejected"@ != "timed-out"@,
        "unsupported"@ != "crashed"@,
        "unsupported"@ != "timed-out"@,
        "crashed"@ != "timed-out"@,
{
    reveal_strlit("ok");
    reveal_strlit("rejected");
    reveal_strlit("unsupported");
    reveal_strlit("crashed");
    reveal_strlit("timed-out");
    assert("ok"@.len() == 2 && "rejected"@.len() == 8 && "unsupported"@.len() == 11
        && "crashed"@.len() == 7 && "timed-out"@.len() == 9);
}

// ---- verdicts ----

/// The answers of named participants that gave some outcomes.
pub open spec fn given(names: Seq<Seq<char>>, outcomes: Seq<OutcomeModel>) -> Seq<NamedModel> {
    Seq::new(
        outcomes.len(),
        |i: int| NamedModel { implementation: names[i], output: normal_form(outcomes[i]) },
    )
}

/// Whether an outcome accuses its participant by itself.
pub open spec fn accuses(o: OutcomeModel) -> bool {
    o is Crashed || o is TimedOut
}

/// Whether two outcomes contradict each other: both are answers, and they are not the same answer.
pub open spec fn contradict(a: OutcomeModel, b: OutcomeModel) -> bool {
    !(a is Unsupported) && !(b is Unsupported) && !match (a, b) {
        (OutcomeModel::Produced(x), OutcomeModel::Produced(y)) => x.len() == y.len() && forall|
            t: int,
        |
            0 <= t < x.len() ==> same_answer(#[trigger] x[t], y[t]),
        (OutcomeModel::Rejected(_), OutcomeModel::Rejected(_)) => true,
        (OutcomeModel::Crashed(_), OutcomeModel::Crashed(_)) => true,
        (OutcomeModel::TimedOut(_), OutcomeModel::TimedOut(_)) => true,
        _ => false,
    }
}

/// A case diverges exactly where somebody crashed or ran out of time, or where two participants
/// gave answers that are not the same.
pub proof fn lemma_a_case_diverges_by_its_outcomes(
    c: CaseModel,
    names: Seq<Seq<char>>,
    outcomes: Seq<OutcomeModel>,
)
    ensures
        verdict_of(c, given(names, outcomes)) is Diverged <==> (exists|i: int|
            0 <= i < outcomes.len() && accuses(#[trigger] outcomes[i])) || (exists|i: int, j: int|
            0 <= i < outcomes.len() && 0 <= j < outcomes.len() && contradict(
                #[trigger] outcomes[i],
                #[trigger] outcomes[j],
            )),
{
    let outs = given(names, outcomes);
    lemma_kinds_differ();
    lemma_divergence_does_not_depend_on_order(c, outs);
    assert forall|i: int| 0 <= i < outs.len() implies (#[trigger] outs[i]).output.defect()
        == accuses(outcomes[i]) && outs[i].output.unsupported() == (outcomes[i] is Unsupported) by {}
    assert forall|i: int, j: int| 0 <= i < outs.len() && 0 <= j < outs.len() implies
        crate::oracle::opposed(#[trigger] outs[i], #[trigger] outs[j]) == contradict(
        outcomes[i],
        outcomes[j],
    ) by {
        lemma_outcomes_agree_by_their_values(outcomes[i], outcomes[j]);
    }
    if exists|i: int| 0 <= i < outcomes.len() && accuses(#[trigger] outcomes[i]) {
        let i = choose|i: int| 0 <= i < outcomes.len() && accuses(#[trigger] outcomes[i]);
        assert(outs[i].output.defect());
    }
    if exists|i: int, j: int|
        0 <= i < outcomes.len() && 0 <= j < outcomes.len() && contradict(
            #[trigger] outcomes[i],
            #[trigger] outcomes[j],
        ) {
        let (i, j) = choose|i: int, j: int|
            0 <= i < outcomes.len() && 0 <= j < outcomes.len() && contradict(
                #[trigger] outcomes[i],
                #[trigger] outcomes[j],
            );
        assert(crate::oracle::opposed(outs[i], outs[j]));
    }
    if crate::oracle::diverges(outs) {
        if exists|i: int| 0 <= i < outs.len() && (#[trigger] outs[i]).output.defect() {
            let i = choose|i: int| 0 <= i < outs.len() && (#[trigger] outs[i]).output.defect();
            assert(accuses(outcomes[i]));
        } else {
            let (i, j) = choose|i: int, j: int|
                0 <= i < outs.len() && 0 <= j < outs.len() && crate::oracle::opposed(
                    #[trigger] outs[i],
                    #[trigger] outs[j],
                );
            assert(contradict(outcomes[i], outcomes[j]));
        }
    }
}

/// The participants that answered: all but those that do not implement the operator.
pub open spec fn answering(outcomes: Seq<OutcomeModel>) -> Seq<OutcomeModel> {
    outcomes.filter(|o: OutcomeModel| !(o is Unsupported))
}

proof fn lemma_answering(names: Seq<Seq<char>>, outcomes: Seq<OutcomeModel>)
    ensures
        given(names, outcomes).filter(is_comparable()).len() == answering(outcomes).len(),
    decreases outcomes.len(),
{
    reveal(Seq::filter);
    lemma_kinds_differ();
    let f = |o: OutcomeModel| !(o is Unsupported);
    if outcomes.len() > 0 {
        let front = outcomes.drop_last();
        let outs = given(names, outcomes);
        lemma_answering(names, front);
        assert(outs.drop_last() =~= given(names, front));
        assert(outs =~= given(names, front).push(outs.last()));
        assert(outcomes =~= front.push(outcomes.last()));
        given(names, front).lemma_filter_push(outs.last(), is_comparable());
        front.lemma_filter_push(outcomes.last(), f);
    } else {
        assert(given(names, outcomes).filter(is_comparable()) =~= Seq::empty());
        assert(answering(outcomes) =~= Seq::empty());
    }
}

/// Whether a tensor holds a number: an element of an integer type or a truth value, or a
/// floating-point one that is neither infinite nor a `NaN`.
pub open spec fn holds_a_number(t: TensorModel) -> bool {
    exists|k: int| 0 <= k < t.data.len() && #[trigger] number_at(t.data, k)
}

/// Whether an element is a number.
pub open spec fn number_at(d: DataModel, k: int) -> bool {
    match d {
        DataModel::F32(v) => single_number(v[k] as int),
        DataModel::F64(v) => double_number(v[k] as int),
        _ => true,
    }
}

/// Whether an outcome is evidence: it is a refusal, or it holds a number.
pub open spec fn tells_something(o: OutcomeModel) -> bool {
    match o {
        OutcomeModel::Produced(ts) => exists|t: int|
            0 <= t < ts.len() && holds_a_number(#[trigger] ts[t]),
        _ => true,
    }
}

proof fn lemma_tells_something(o: OutcomeModel)
    ensures
        normal_form(o).degenerate() == !tells_something(o),
{
    lemma_kinds_differ();
    match o {
        OutcomeModel::Produced(ts) => {
            let n = normal_form(o);
            assert forall|t: int| 0 <= t < ts.len() implies ((#[trigger] n.tensors[t]).bits.len()
                == 0 || n.tensors[t].entirely_undefined) == !holds_a_number(ts[t]) by {
                let d = ts[t].data;
                assert(n.tensors[t] == canon_of(ts[t]));
                match d {
                    DataModel::F32(v) => {
                        assert forall|k: int| 0 <= k < v.len() implies number_at(d, k)
                            == crate::bits::f32_is_finite(#[trigger] v[k]) by {
                            lemma_single_nan(v[k]);
                        }
                        if d.entirely_undefined() && holds_a_number(ts[t]) {
                            let k = choose|k: int| 0 <= k < d.len() && #[trigger] number_at(d, k);
                            assert(crate::bits::f32_is_finite(v[k]));
                        }
                        if d.len() > 0 && !d.entirely_undefined() {
                            let k = choose|k: int|
                                0 <= k < v.len() && crate::bits::f32_is_finite(#[trigger] v[k]);
                            assert(number_at(d, k));
                        }
                    },
                    DataModel::F64(v) => {
                        assert forall|k: int| 0 <= k < v.len() implies number_at(d, k)
                            == crate::bits::f64_is_finite(#[trigger] v[k]) by {
                            lemma_double_nan(v[k]);
                        }
                        if d.entirely_undefined() && holds_a_number(ts[t]) {
                            let k = choose|k: int| 0 <= k < d.len() && #[trigger] number_at(d, k);
                            assert(crate::bits::f64_is_finite(v[k]));
                        }
                        if d.len() > 0 && !d.entirely_undefined() {
                            let k = choose|k: int|
                                0 <= k < v.len() && crate::bits::f64_is_finite(#[trigger] v[k]);
                            assert(number_at(d, k));
                        }
                    },
                    _ => {
                        if d.len() > 0 {
                            assert(number_at(d, 0));
                        }
                    },
                }
            }
            if tells_something(o) {
                let t = choose|t: int| 0 <= t < ts.len() && holds_a_number(#[trigger] ts[t]);
                assert(!(n.tensors[t].bits.len() == 0 || n.tensors[t].entirely_undefined));
            }
            if !n.degenerate() {
                let t = choose|t: int|
                    0 <= t < n.tensors.len() && !((#[trigger] n.tensors[t]).bits.len() == 0
                        || n.tensors[t].entirely_undefined);
                assert(holds_a_number(ts[t]));
            }
        },
        _ => {},
    }
}

/// Whether two answers are the same to the last bit.
pub open spec fn same_to_the_bit(a: OutcomeModel, b: OutcomeModel) -> bool {
    match (a, b) {
        (OutcomeModel::Produced(x), OutcomeModel::Produced(y)) => x.len() == y.len() && forall|
            t: int,
        |
            0 <= t < x.len() ==> (#[trigger] x[t]).dims == y[t].dims && x[t].data == y[t].data,
        (OutcomeModel::Rejected(_), OutcomeModel::Rejected(_)) => true,
        _ => false,
    }
}

proof fn lemma_same_to_the_bit(a: OutcomeModel, b: OutcomeModel)
    requires
        !(a is Unsupported) && !accuses(a),
        !(b is Unsupported) && !accuses(b),
    ensures
        agreement(normal_form(a), normal_form(b)) == Agreement::Exactly <==> same_to_the_bit(a, b),
{
    lemma_kinds_differ();
    lemma_outcomes_agree_by_their_values(a, b);
    match (a, b) {
        (OutcomeModel::Produced(x), OutcomeModel::Produced(y)) => {
            if same_to_the_bit(a, b) {
                let l = normal_form(a).tensors;
                let r = normal_form(b).tensors;
                assert forall|t: int| 0 <= t < l.len() implies #[trigger] tensor_agreement(
                    l[t],
                    r[t],
                ) == Agreement::Exactly by {
                    lemma_same_answer(x[t], y[t]);
                }
            }
        },
        _ => {},
    }
}

proof fn lemma_nothing_licensed(outs: Seq<NamedModel>, n: nat)
    requires
        n <= outs.len(),
        forall|k: int|
            0 <= k < outs.len() ==> agreement(outs[0].output, (#[trigger] outs[k]).output)
                == Agreement::Exactly,
    ensures
        most_licensed(outs, n) == 0,
    decreases n,
{
    if n > 0 {
        lemma_nothing_licensed(outs, (n - 1) as nat);
        assert(agreement(outs[0].output, outs[n - 1].output) == Agreement::Exactly);
    }
}

spec fn answered_by(outs: Seq<NamedModel>, outcomes: Seq<OutcomeModel>, x: NamedModel) -> bool {
    exists|i: int| 0 <= i < outs.len() && #[trigger] outs[i] == x && !(outcomes[i] is Unsupported)
}

/// Agreement is said exactly where nobody failed, at least two answered, somebody's answer tells
/// something, and all answers are the same to the last bit.
pub proof fn lemma_a_case_agrees_by_its_outcomes(
    c: CaseModel,
    names: Seq<Seq<char>>,
    outcomes: Seq<OutcomeModel>,
)
    ensures
        verdict_of(c, given(names, outcomes)) is Agree <==> {
            &&& forall|i: int| 0 <= i < outcomes.len() ==> !accuses(#[trigger] outcomes[i])
            &&& answering(outcomes).len() >= 2
            &&& exists|i: int|
                0 <= i < outcomes.len() && !((#[trigger] outcomes[i]) is Unsupported)
                    && tells_something(outcomes[i])
            &&& forall|i: int, j: int|
                0 <= i < outcomes.len() && 0 <= j < outcomes.len() && !(outcomes[i] is Unsupported)
                    && !(outcomes[j] is Unsupported) ==> same_to_the_bit(
                    #[trigger] outcomes[i],
                    #[trigger] outcomes[j],
                )
        },
        verdict_of(c, given(names, outcomes)) matches VerdictModel::Skipped(
            SkipReason::TooFewResults { available },
        ) ==> answering(outcomes).len() < 2 && available == answering(outcomes).len(),
        verdict_of(c, given(names, outcomes)) matches VerdictModel::Skipped(
            SkipReason::NothingComparable { elements },
        ) ==> answering(outcomes).len() >= 2,
{
    let outs = given(names, outcomes);
    let able = outs.filter(is_comparable());
    let v = verdict_of(c, outs);
    lemma_kinds_differ();
    lemma_answering(names, outcomes);
    lemma_divergence_does_not_depend_on_order(c, outs);
    assert forall|i: int| 0 <= i < outs.len() implies (#[trigger] outs[i]).output.defect()
        == accuses(outcomes[i]) && outs[i].output.unsupported() == (outcomes[i] is Unsupported) by {}
    assert forall|i: int| 0 <= i < outs.len() && !(outcomes[i] is Unsupported) implies able.contains(
        #[trigger] outs[i],
    ) by {
        outs.lemma_filter_contains(is_comparable(), i);
    }
    assert forall|k: int| 0 <= k < able.len() implies answered_by(
        outs,
        outcomes,
        #[trigger] able[k],
    ) by {
        outs.lemma_filter_pred(is_comparable(), k);
        assert(able.contains(able[k]));
        outs.lemma_filter_contains_rev(is_comparable(), able[k]);
        let i = choose|i: int| 0 <= i < outs.len() && outs[i] == able[k];
        assert(outs[i] == able[k]);
    }
    let calm = forall|i: int| 0 <= i < outcomes.len() ==> !accuses(#[trigger] outcomes[i]);
    let telling = exists|i: int|
        0 <= i < outcomes.len() && !((#[trigger] outcomes[i]) is Unsupported) && tells_something(
            outcomes[i],
        );
    let one = forall|i: int, j: int|
        0 <= i < outcomes.len() && 0 <= j < outcomes.len() && !(outcomes[i] is Unsupported) && !(
        outcomes[j] is Unsupported) ==> same_to_the_bit(
            #[trigger] outcomes[i],
            #[trigger] outcomes[j],
        );
    if v is Agree {
        lemma_agreement_is_evidence(c, outs);
        assert forall|i: int| 0 <= i < outcomes.len() implies !accuses(#[trigger] outcomes[i]) by {
            assert(!outs[i].output.defect());
        }
        let k = choose|k: int| 0 <= k < able.len() && !(#[trigger] able[k]).output.degenerate();
        assert(answered_by(outs, outcomes, able[k]));
        let i = choose|i: int|
            0 <= i < outs.len() && #[trigger] outs[i] == able[k] && !(outcomes[i] is Unsupported);
        lemma_tells_something(outcomes[i]);
        assert(tells_something(outcomes[i]));
        assert(telling);
        assert forall|i: int, j: int|
            0 <= i < outcomes.len() && 0 <= j < outcomes.len() && !(outcomes[i] is Unsupported) && !(
            outcomes[j] is Unsupported) implies same_to_the_bit(
            #[trigger] outcomes[i],
            #[trigger] outcomes[j],
        ) by {
            assert(able.contains(outs[i]) && able.contains(outs[j]));
            let a = choose|a: int| 0 <= a < able.len() && able[a] == outs[i];
            let b = choose|b: int| 0 <= b < able.len() && able[b] == outs[j];
            assert(agreement(able[a].output, able[b].output) == Agreement::Exactly);
            lemma_same_to_the_bit(outcomes[i], outcomes[j]);
        }
    }
    if calm && able.len() >= 2 && telling && one {
        assert forall|a: int, b: int| 0 <= a < able.len() && 0 <= b < able.len() implies agreement(
            (#[trigger] able[a]).output,
            (#[trigger] able[b]).output,
        ) == Agreement::Exactly by {
            assert(answered_by(outs, outcomes, able[a]) && answered_by(outs, outcomes, able[b]));
            let i = choose|i: int|
                0 <= i < outs.len() && #[trigger] outs[i] == able[a] && !(
                outcomes[i] is Unsupported);
            let j = choose|j: int|
                0 <= j < outs.len() && #[trigger] outs[j] == able[b] && !(
                outcomes[j] is Unsupported);
            assert(same_to_the_bit(outcomes[i], outcomes[j]));
            lemma_same_to_the_bit(outcomes[i], outcomes[j]);
        }
        lemma_nothing_licensed(able, able.len());
        let i = choose|i: int|
            0 <= i < outcomes.len() && !((#[trigger] outcomes[i]) is Unsupported)
                && tells_something(outcomes[i]);
        lemma_tells_something(outcomes[i]);
        assert(able.contains(outs[i]));
        let k = choose|k: int| 0 <= k < able.len() && able[k] == outs[i];
        assert(!able[k].output.degenerate());
        assert(!all_degenerate(able));
        assert(!crate::oracle::diverges(outs)) by {
            if exists|i: int| 0 <= i < outs.len() && (#[trigger] outs[i]).output.defect() {
                let i = choose|i: int| 0 <= i < outs.len() && (#[trigger] outs[i]).output.defect();
                assert(accuses(outcomes[i]));
            }
            if exists|i: int, j: int|
                0 <= i < outs.len() && 0 <= j < outs.len() && crate::oracle::opposed(
                    #[trigger] outs[i],
                    #[trigger] outs[j],
                ) {
                let (i, j) = choose|i: int, j: int|
                    0 <= i < outs.len() && 0 <= j < outs.len() && crate::oracle::opposed(
                        #[trigger] outs[i],
                        #[trigger] outs[j],
                    );
                assert(same_to_the_bit(outcomes[i], outcomes[j]));
                lemma_same_to_the_bit(outcomes[i], outcomes[j]);
            }
        }
    }
}

} // verus!
