//! What identifies a disagreement: the operator, the opset, the element type, the rank and the
//! kind, and never the values.
//!
//! The key is fine on purpose. Two problems under one key make the second invisible, and what that
//! looks like is a shorter list.

use vstd::prelude::*;

use crate::case::{CaseModel, ElemType, OnnxCase};
use crate::normalize::{equivalent, CanonTensor, Canonical, CanonicalModel};
use crate::ops::{data_elem_of, data_elem_type, data_rank, data_rank_of};
use crate::oracle::{answers, lemma_divergence_does_not_depend_on_order, opposed};
use crate::oracle::{verdict_of, NamedModel, NamedOutput};
use crate::text::{decimal, decimal_text, integer, integer_text};

verus! {

/// How the answers disagree.
#[derive(Debug, Clone, Copy, PartialEq, Eq, Structural)]
pub enum Kind {
    /// The answers have one form and differ in their values.
    Value,
    /// The answers differ in their shapes, their element types or their number.
    Shape,
    /// Some refuse what others execute.
    RejectedVersusOk,
    /// Somebody crashed or ran out of time.
    Crash,
}

impl Kind {
    /// The name of a kind in a key.
    pub open spec fn text(self) -> Seq<char> {
        match self {
            Kind::Value => "value"@,
            Kind::Shape => "shape"@,
            Kind::RejectedVersusOk => "rejected-vs-ok"@,
            Kind::Crash => "crash"@,
        }
    }

    /// The name of a kind in a key.
    pub fn label(self) -> (r: &'static str)
        ensures
            r@ == self.text(),
    {
        match self {
            Kind::Value => "value",
            Kind::Shape => "shape",
            Kind::RejectedVersusOk => "rejected-vs-ok",
            Kind::Crash => "crash",
        }
    }
}

/// What identifies a disagreement, taken apart.
#[derive(Debug, Clone, PartialEq, Eq)]
pub struct Signature {
    pub operator: String,
    pub opset: i64,
    pub elem_type: ElemType,
    pub rank: usize,
    pub kind: Kind,
    /// Who took part, and what kind of answer each gave.
    pub participants: Vec<(String, String)>,
}

/// What a [`Signature`] holds.
#[verifier::ext_equal]
pub struct SignatureModel {
    pub operator: Seq<char>,
    pub opset: i64,
    pub elem_type: ElemType,
    pub rank: nat,
    pub kind: Kind,
    pub participants: Seq<(Seq<char>, Seq<char>)>,
}

/// The names and the answers of a sequence of participants.
pub open spec fn pairs_of(v: Seq<(String, String)>) -> Seq<(Seq<char>, Seq<char>)> {
    Seq::new(v.len(), |i: int| (v[i].0@, v[i].1@))
}

impl View for Signature {
    type V = SignatureModel;

    open spec fn view(&self) -> SignatureModel {
        SignatureModel {
            operator: self.operator@,
            opset: self.opset,
            elem_type: self.elem_type,
            rank: self.rank as nat,
            kind: self.kind,
            participants: pairs_of(self.participants@),
        }
    }
}

impl SignatureModel {
    /// The key, as one line. Who took part is no part of it.
    pub open spec fn key(self) -> Seq<char> {
        self.operator + "/"@ + integer_text(self.opset as int) + "/"@ + self.elem_type.text()
            + "/rank"@ + decimal_text(self.rank) + "/"@ + self.kind.text()
    }
}

impl Signature {
    /// The key, as one line.
    pub fn key(&self) -> (r: String)
        ensures
            r@ == self@.key(),
    {
        let mut out: String = self.operator.as_str().to_owned();
        out.append("/");
        out.append(integer(self.opset).as_str());
        out.append("/");
        out.append(self.elem_type.name());
        out.append("/rank");
        out.append(decimal(self.rank as u64).as_str());
        out.append("/");
        out.append(self.kind.label());
        out
    }
}

/// Whether two answers have tensors of the same number, shapes and element types.
pub open spec fn same_forms(a: CanonicalModel, b: CanonicalModel) -> bool {
    a.tensors.len() == b.tensors.len() && forall|i: int|
        0 <= i < a.tensors.len() ==> (#[trigger] a.tensors[i]).dims == b.tensors[i].dims
            && a.tensors[i].elem_type == b.tensors[i].elem_type
}

/// Whether a participant refused a case that it did not declare a gap for.
pub open spec fn refused(a: NamedModel) -> bool {
    !a.output.unsupported() && !a.output.ok()
}

/// Whether two answers can be compared and differ in form.
pub open spec fn misshapen(a: NamedModel, b: NamedModel) -> bool {
    !a.output.unsupported() && !b.output.unsupported() && !same_forms(a.output, b.output)
}

pub open spec fn any_defect(outs: Seq<NamedModel>) -> bool {
    exists|i: int| 0 <= i < outs.len() && (#[trigger] outs[i]).output.defect()
}

pub open spec fn any_opposed(outs: Seq<NamedModel>) -> bool {
    exists|i: int, j: int|
        0 <= i < outs.len() && 0 <= j < outs.len() && opposed(#[trigger] outs[i], #[trigger] outs[j])
}

pub open spec fn any_refused(outs: Seq<NamedModel>) -> bool {
    exists|i: int| 0 <= i < outs.len() && refused(#[trigger] outs[i])
}

pub open spec fn any_misshapen(outs: Seq<NamedModel>) -> bool {
    exists|i: int, j: int|
        0 <= i < outs.len() && 0 <= j < outs.len() && misshapen(#[trigger] outs[i], #[trigger] outs[j])
}

/// How the answers disagree, if they do.
pub open spec fn kind_of(outs: Seq<NamedModel>) -> Option<Kind> {
    if any_defect(outs) {
        Some(Kind::Crash)
    } else if !any_opposed(outs) {
        None
    } else if any_refused(outs) {
        Some(Kind::RejectedVersusOk)
    } else if any_misshapen(outs) {
        Some(Kind::Shape)
    } else {
        Some(Kind::Value)
    }
}

/// The signature of a case, given every participant's answer.
pub open spec fn signature_of(c: CaseModel, outs: Seq<NamedModel>) -> Option<SignatureModel> {
    match kind_of(outs) {
        Some(kind) => Some(
            SignatureModel {
                operator: c.op.text(),
                opset: c.opset,
                elem_type: data_elem_of(c),
                rank: data_rank_of(c),
                kind,
                participants: Seq::new(
                    outs.len(),
                    |i: int| (outs[i].implementation, outs[i].output.kind),
                ),
            },
        ),
        None => None,
    }
}

fn same_dims(a: &Vec<i64>, b: &Vec<i64>) -> (r: bool)
    ensures
        r == (a@ == b@),
{
    if a.len() != b.len() {
        return false;
    }
    let mut i: usize = 0;
    while i < a.len()
        invariant
            i <= a.len(),
            a.len() == b.len(),
            forall|k: int| 0 <= k < i ==> a@[k] == b@[k],
        decreases a.len() - i,
    {
        if a[i] != b[i] {
            return false;
        }
        i += 1;
    }
    assert(a@ =~= b@);
    true
}

fn forms_agree(a: &Canonical, b: &Canonical) -> (r: bool)
    ensures
        r == same_forms(a@, b@),
{
    if a.tensors.len() != b.tensors.len() {
        return false;
    }
    let mut i: usize = 0;
    while i < a.tensors.len()
        invariant
            i <= a.tensors.len(),
            a.tensors.len() == b.tensors.len(),
            forall|k: int|
                0 <= k < i ==> (#[trigger] a@.tensors[k]).dims == b@.tensors[k].dims
                    && a@.tensors[k].elem_type == b@.tensors[k].elem_type,
        decreases a.tensors.len() - i,
    {
        let left: &CanonTensor = &a.tensors[i];
        let right: &CanonTensor = &b.tensors[i];
        assert(a@.tensors[i as int] == left@ && b@.tensors[i as int] == right@);
        if !same_dims(&left.dims, &right.dims) || left.elem_type != right.elem_type {
            return false;
        }
        i += 1;
    }
    true
}

/// How the answers disagree, if they do.
fn find_kind(outputs: &Vec<NamedOutput>) -> (r: Option<Kind>)
    ensures
        r == kind_of(answers(outputs@)),
{
    let ghost outs = answers(outputs@);
    let mut broke: bool = false;
    let mut declined: bool = false;
    let mut i: usize = 0;
    while i < outputs.len()
        invariant
            i <= outputs.len(),
            outs == answers(outputs@),
            broke == exists|k: int| 0 <= k < i && (#[trigger] outs[k]).output.defect(),
            declined == exists|k: int| 0 <= k < i && refused(#[trigger] outs[k]),
        decreases outputs.len() - i,
    {
        assert(outs[i as int] == outputs@[i as int]@);
        let here: &Canonical = &outputs[i].output;
        if here.is_self_evident_defect() {
            broke = true;
        }
        if !here.is_unsupported() && !here.is_ok() {
            assert(refused(outs[i as int]));
            declined = true;
        }
        i += 1;
    }
    assert(broke == any_defect(outs));
    assert(declined == any_refused(outs));
    if broke {
        return Some(Kind::Crash);
    }
    let mut differ: bool = false;
    let mut misfit: bool = false;
    let mut a: usize = 0;
    while a < outputs.len()
        invariant
            a <= outputs.len(),
            outs == answers(outputs@),
            differ == exists|k: int, l: int|
                0 <= k < a && 0 <= l < outs.len() && opposed(#[trigger] outs[k], #[trigger] outs[l]),
            misfit == exists|k: int, l: int|
                0 <= k < a && 0 <= l < outs.len() && misshapen(#[trigger] outs[k], #[trigger] outs[l]),
        decreases outputs.len() - a,
    {
        let mut b: usize = 0;
        while b < outputs.len()
            invariant
                a < outputs.len(),
                b <= outputs.len(),
                outs == answers(outputs@),
                differ == ((exists|k: int, l: int|
                    0 <= k < a && 0 <= l < outs.len() && opposed(
                        #[trigger] outs[k],
                        #[trigger] outs[l],
                    )) || exists|l: int| 0 <= l < b && opposed(outs[a as int], #[trigger] outs[l])),
                misfit == ((exists|k: int, l: int|
                    0 <= k < a && 0 <= l < outs.len() && misshapen(
                        #[trigger] outs[k],
                        #[trigger] outs[l],
                    )) || exists|l: int| 0 <= l < b && misshapen(outs[a as int], #[trigger] outs[l])),
            decreases outputs.len() - b,
        {
            assert(outs[a as int] == outputs@[a as int]@ && outs[b as int] == outputs@[b as int]@);
            let left: &Canonical = &outputs[a].output;
            let right: &Canonical = &outputs[b].output;
            if !left.is_unsupported() && !right.is_unsupported() {
                if !equivalent(left, right) {
                    assert(opposed(outs[a as int], outs[b as int]));
                    differ = true;
                }
                if !forms_agree(left, right) {
                    assert(misshapen(outs[a as int], outs[b as int]));
                    misfit = true;
                }
            }
            b += 1;
        }
        a += 1;
    }
    assert(differ == any_opposed(outs));
    assert(misfit == any_misshapen(outs));
    if !differ {
        None
    } else if declined {
        Some(Kind::RejectedVersusOk)
    } else if misfit {
        Some(Kind::Shape)
    } else {
        Some(Kind::Value)
    }
}

/// The signature of a case, given every participant's answer. There is one exactly when the case
/// diverges.
pub fn of(case: &OnnxCase, outputs: &Vec<NamedOutput>) -> (r: Option<Signature>)
    ensures
        match r {
            Some(s) => signature_of(case@, answers(outputs@)) == Some(s@),
            None => signature_of(case@, answers(outputs@)) is None,
        },
{
    let ghost outs = answers(outputs@);
    match find_kind(outputs) {
        None => None,
        Some(kind) => {
            let mut participants: Vec<(String, String)> = Vec::new();
            let mut i: usize = 0;
            while i < outputs.len()
                invariant
                    i <= outputs.len(),
                    outs == answers(outputs@),
                    participants.len() == i,
                    forall|k: int|
                        0 <= k < i ==> pairs_of(participants@)[k] == (
                            outs[k].implementation,
                            outs[k].output.kind,
                        ),
                decreases outputs.len() - i,
            {
                assert(outs[i as int] == outputs@[i as int]@);
                let ghost before = participants@;
                let name: String = outputs[i].implementation.as_str().to_owned();
                participants.push((name, outputs[i].output.kind.to_owned()));
                assert forall|k: int| 0 <= k < i + 1 implies pairs_of(participants@)[k] == (
                    outs[k].implementation,
                    outs[k].output.kind,
                ) by {
                    if k < i {
                        assert(participants@[k] == before[k]);
                        assert(pairs_of(before)[k] == pairs_of(participants@)[k]);
                    }
                }
                i += 1;
            }
            let r: Signature = Signature {
                operator: case.op.onnx_name().to_owned(),
                opset: case.opset,
                elem_type: data_elem_type(case),
                rank: data_rank(case),
                kind,
                participants,
            };
            assert(r@ =~= signature_of(case@, outs)->0);
            Some(r)
        },
    }
}

// ---- laws ----

/// A case has a signature exactly when the oracle reports it as diverging, so that no finding goes
/// without a key and no key stands for an agreement.
pub proof fn lemma_every_divergence_has_a_signature(c: CaseModel, outs: Seq<NamedModel>)
    ensures
        signature_of(c, outs) is Some <==> verdict_of(c, outs) is Diverged,
{
    lemma_divergence_does_not_depend_on_order(c, outs);
}

/// Whether every answer of one sequence occurs in another.
pub open spec fn covered(a: Seq<NamedModel>, b: Seq<NamedModel>) -> bool {
    forall|i: int| 0 <= i < a.len() ==> #[trigger] b.contains(a[i])
}

/// The key of a disagreement does not depend on the order in which the participants answered.
pub proof fn lemma_the_key_forgets_the_order(c: CaseModel, a: Seq<NamedModel>, b: Seq<NamedModel>)
    requires
        covered(a, b),
        covered(b, a),
    ensures
        signature_of(c, a) is Some <==> signature_of(c, b) is Some,
        signature_of(c, a) is Some ==> signature_of(c, a)->0.key() == signature_of(c, b)->0.key(),
{
    lemma_any_carries_over(a, b);
    lemma_any_carries_over(b, a);
}

proof fn lemma_any_carries_over(a: Seq<NamedModel>, b: Seq<NamedModel>)
    requires
        covered(a, b),
    ensures
        any_defect(a) ==> any_defect(b),
        any_opposed(a) ==> any_opposed(b),
        any_refused(a) ==> any_refused(b),
        any_misshapen(a) ==> any_misshapen(b),
{
    let at = |x: NamedModel| choose|j: int| 0 <= j < b.len() && b[j] == x;
    assert forall|i: int| 0 <= i < a.len() implies 0 <= at(#[trigger] a[i]) < b.len() && b[at(a[i])]
        == a[i] by {
        assert(b.contains(a[i]));
    }
}

} // verus!
