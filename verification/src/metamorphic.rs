//! Relations that hold one implementation against itself.
//!
//! If every runtime is wrong in the same way, they agree, and comparing them shows nothing. A
//! relation compares a runtime with arithmetic that must hold. A wrong transformation would be a
//! wrong oracle, so each relation says exactly where it applies.

use vstd::prelude::*;

use crate::attrs::{lookup, AttrModel, AttrValue, Attrs};
use crate::case::{any_negative, has_negative, tensors_model, CaseModel, ElemType};
use crate::case::{InputRole, OnnxCase, OpKind, TensorModel, TensorValue};
use crate::ops::{copy_dims, op_spec, output_dims, output_elem, output_fits, output_spec};
use crate::validation::{is_permutation, is_valid, valid};

verus! {

/// What a relation concluded about a case.
#[derive(Debug, Clone, Copy, PartialEq, Eq, Structural)]
pub enum Verdict {
    /// It applied and held.
    Held,
    /// It applied and was violated.
    Violated,
    /// It did not apply. That is never counted as a pass.
    NotApplicable,
}

// ---- shape ----

/// What the shape relation concludes: the first output must have the inferred shape and type.
pub open spec fn shape_verdict(c: CaseModel, produced: Seq<TensorModel>) -> Verdict {
    if produced.len() == 0 || any_negative(output_dims(c)) {
        Verdict::NotApplicable
    } else if produced[0].dims == output_dims(c) && produced[0].elem_type() == output_elem(c) {
        Verdict::Held
    } else {
        Verdict::Violated
    }
}

/// The shape that is inferred must be the shape that is produced.
pub fn shape_matches_inference(case: &OnnxCase, produced: &[TensorValue]) -> (r: Verdict)
    requires
        output_fits(case@),
    ensures
        r == shape_verdict(case@, tensors_model(produced@)),
{
    if produced.len() == 0 {
        return Verdict::NotApplicable;
    }
    assert(tensors_model(produced@)[0] == produced@[0]@);
    let (elem, dims): (ElemType, Vec<i64>) = output_spec(case);
    if has_negative(&dims) {
        return Verdict::NotApplicable;
    }
    let same: bool = produced[0].dims == dims;
    assert(same ==> produced@[0].dims@ =~= dims@);
    if same && produced[0].elem_type() == elem {
        Verdict::Held
    } else {
        Verdict::Violated
    }
}

// ---- opset ----

/// The same case at the earliest opset version at which the operator is defined as it is now. There
/// is none if the case is at that version already, or would not be legal there.
pub open spec fn earlier_case(c: CaseModel) -> Option<CaseModel> {
    let earlier = CaseModel { opset: c.op.since(), ..c };
    if c.op.since() >= c.opset || !valid(earlier) {
        None
    } else {
        Some(earlier)
    }
}

/// The same case at the earliest opset version at which the operator is defined as it is now.
pub fn opset_invariant(case: &OnnxCase) -> (r: Option<OnnxCase>)
    ensures
        r is Some <==> earlier_case(case@) is Some,
        r matches Some(e) ==> earlier_case(case@) == Some(e@),
{
    let since: i64 = op_spec(case.op).since;
    if since >= case.opset {
        return None;
    }
    let mut earlier: OnnxCase = case.clone();
    earlier.opset = since;
    if !is_valid(&earlier) {
        return None;
    }
    Some(earlier)
}

// ---- transposition ----

/// The last of the first `n` positions that holds an axis, or zero.
pub open spec fn last_position(perm: Seq<i64>, axis: int, n: nat) -> int
    decreases n,
{
    if n == 0 {
        0
    } else if perm[n - 1] == axis {
        n - 1
    } else {
        last_position(perm, axis, (n - 1) as nat)
    }
}

/// The inverse of a permutation: for each axis, where it is found.
pub open spec fn inverse_of(perm: Seq<i64>) -> Seq<i64> {
    Seq::new(perm.len(), |axis: int| last_position(perm, axis, perm.len()) as i64)
}

/// Whether every entry names an axis.
pub open spec fn names_axes(perm: Seq<i64>) -> bool {
    forall|i: int| 0 <= i < perm.len() ==> 0 <= #[trigger] perm[i] < perm.len()
}

/// A single-input case on what was produced.
pub open spec fn follow_up(
    op: OpKind,
    opset: i64,
    produced: TensorModel,
    attrs: Seq<(Seq<char>, AttrModel)>,
) -> CaseModel {
    CaseModel {
        opset,
        op,
        inputs: seq![
            TensorModel {
                name: "a"@,
                dims: produced.dims,
                data: produced.data,
                role: InputRole::Data,
            },
        ],
        attrs,
    }
}

/// The case that undoes a transposition, given what it produced.
pub open spec fn undoing(c: CaseModel, produced: TensorModel) -> Option<CaseModel> {
    if c.op != OpKind::Transpose {
        None
    } else {
        match lookup(c.attrs, "perm"@) {
            Some(AttrModel::Ints(perm)) => if names_axes(perm) {
                Some(
                    follow_up(
                        OpKind::Transpose,
                        c.opset,
                        produced,
                        seq![("perm"@, AttrModel::Ints(inverse_of(perm)))],
                    ),
                )
            } else {
                None
            },
            _ => None,
        }
    }
}

fn follow(op: OpKind, opset: i64, produced: &TensorValue, attrs: Attrs) -> (r: OnnxCase)
    ensures
        r@ == follow_up(op, opset, produced@, attrs@),
{
    let input: TensorValue = TensorValue::new(
        "a",
        copy_dims(&produced.dims),
        produced.data.clone(),
    );
    let inputs: Vec<TensorValue> = vec![input];
    assert(tensors_model(inputs@) =~= follow_up(op, opset, produced@, attrs@).inputs);
    OnnxCase::new(op, opset, inputs).with_attrs(attrs)
}

/// The inverse of a permutation.
fn invert(perm: &Vec<i64>) -> (r: Vec<i64>)
    requires
        names_axes(perm@),
    ensures
        r@ == inverse_of(perm@),
{
    let mut inverse: Vec<i64> = Vec::new();
    while inverse.len() < perm.len()
        invariant
            inverse.len() <= perm.len(),
            forall|k: int| 0 <= k < inverse.len() ==> #[trigger] inverse@[k] == 0,
        decreases perm.len() - inverse.len(),
    {
        inverse.push(0);
    }
    let mut position: usize = 0;
    while position < perm.len()
        invariant
            position <= perm.len() == inverse.len(),
            names_axes(perm@),
            forall|k: int|
                0 <= k < inverse.len() ==> #[trigger] inverse@[k] == last_position(
                    perm@,
                    k,
                    position as nat,
                ) as i64,
        decreases perm.len() - position,
    {
        assert(0 <= perm@[position as int] < perm@.len());
        inverse.set(perm[position] as usize, position as i64);
        position += 1;
    }
    assert(inverse@ =~= inverse_of(perm@));
    inverse
}

/// The case that undoes a transposition, given what it produced. The inverse permutation is
/// computed and not assumed to be the permutation itself.
pub fn transpose_inverse(case: &OnnxCase, produced: &TensorValue) -> (r: Option<OnnxCase>)
    ensures
        r is Some <==> undoing(case@, produced@) is Some,
        r matches Some(c) ==> undoing(case@, produced@) == Some(c@),
{
    if case.op != OpKind::Transpose {
        return None;
    }
    match case.attrs.get("perm") {
        Some(AttrValue::Ints(perm)) => {
            let mut i: usize = 0;
            while i < perm.len()
                invariant
                    i <= perm.len(),
                    case@.op == OpKind::Transpose,
                    lookup(case@.attrs, "perm"@) == Some(AttrModel::Ints(perm@)),
                    forall|k: int| 0 <= k < i ==> 0 <= #[trigger] perm@[k] < perm@.len(),
                decreases perm.len() - i,
            {
                if perm[i] < 0 || perm[i] as u64 >= perm.len() as u64 {
                    assert(!names_axes(perm@));
                    return None;
                }
                i += 1;
            }
            let inverse: Vec<i64> = invert(perm);
            let ghost order = inverse@;
            let attrs: Attrs = Attrs::new().ints("perm", inverse);
            assert(attrs@ =~= seq![("perm"@, AttrModel::Ints(order))]);
            Some(follow(OpKind::Transpose, case.opset, produced, attrs))
        },
        _ => None,
    }
}

// ---- conversion ----

/// The type that holds every value of another one exactly, where there is one.
pub open spec fn widening(source: ElemType) -> Option<ElemType> {
    match source {
        ElemType::I32 => Some(ElemType::I64),
        ElemType::F32 => Some(ElemType::F64),
        _ => None,
    }
}

/// The widening half of a conversion there and back, with the type to come back to. Only widenings
/// within a family lose nothing; everything else is left out.
pub open spec fn widened(c: CaseModel) -> Option<(CaseModel, ElemType)> {
    if c.op != OpKind::Cast || c.inputs.len() == 0 {
        None
    } else {
        let source = c.inputs[0].elem_type();
        match widening(source) {
            Some(wide) => Some(
                (
                    CaseModel {
                        opset: c.opset,
                        op: OpKind::Cast,
                        inputs: seq![c.inputs[0]],
                        attrs: seq![("to"@, AttrModel::Int(wide.wire_number() as i64))],
                    },
                    source,
                ),
            ),
            None => None,
        }
    }
}

/// The widening half of a conversion there and back, with the type to come back to.
pub fn cast_round_trip(case: &OnnxCase) -> (r: Option<(OnnxCase, ElemType)>)
    ensures
        r is Some <==> widened(case@) is Some,
        r matches Some((c, t)) ==> widened(case@) == Some((c@, t)),
{
    if case.op != OpKind::Cast || case.inputs.len() == 0 {
        return None;
    }
    assert(case@.inputs[0] == case.inputs@[0]@);
    let source: ElemType = case.inputs[0].elem_type();
    let wide: ElemType = match source {
        ElemType::I32 => ElemType::I64,
        ElemType::F32 => ElemType::F64,
        _ => {
            return None;
        },
    };
    let inputs: Vec<TensorValue> = vec![case.inputs[0].clone()];
    assert(tensors_model(inputs@) =~= seq![case@.inputs[0]]);
    let attrs: Attrs = Attrs::new().with_int("to", wide.wire() as i64);
    assert(attrs@ =~= seq![("to"@, AttrModel::Int(wide.wire_number() as i64))]);
    Some((OnnxCase::new(OpKind::Cast, case.opset, inputs).with_attrs(attrs), source))
}

/// The narrowing half of a conversion there and back.
pub fn cast_back(produced: &TensorValue, back_to: ElemType, opset: i64) -> (r: OnnxCase)
    ensures
        r@ == follow_up(
            OpKind::Cast,
            opset,
            produced@,
            seq![("to"@, AttrModel::Int(back_to.wire_number() as i64))],
        ),
{
    let attrs: Attrs = Attrs::new().with_int("to", back_to.wire() as i64);
    assert(attrs@ =~= seq![("to"@, AttrModel::Int(back_to.wire_number() as i64))]);
    follow(OpKind::Cast, opset, produced, attrs)
}

/// Whether two tensors match bit for bit. Values would not do: minus zero would pass for zero, and
/// a `NaN` that came back as it was would not pass for itself.
pub fn identical(left: &TensorValue, right: &TensorValue) -> (r: bool)
    ensures
        r == (left@.dims == right@.dims && left@.data == right@.data),
{
    let dims: bool = left.dims == right.dims;
    assert(dims ==> left.dims@ =~= right.dims@);
    dims && left.data.same(&right.data)
}

// ---- counting ----

/// A tally over one relation.
#[derive(Debug, Clone, Copy, PartialEq, Eq, Structural)]
pub struct Tally {
    pub held: usize,
    pub violated: usize,
    pub not_applicable: usize,
}

impl Default for Tally {
    fn default() -> (r: Self)
        ensures
            r == (Tally { held: 0, violated: 0, not_applicable: 0 }),
    {
        Tally { held: 0, violated: 0, not_applicable: 0 }
    }
}

impl Tally {
    /// The tally with one more verdict.
    pub open spec fn with(self, verdict: Verdict) -> Tally {
        match verdict {
            Verdict::Held => Tally { held: (self.held + 1) as usize, ..self },
            Verdict::Violated => Tally { violated: (self.violated + 1) as usize, ..self },
            Verdict::NotApplicable => Tally {
                not_applicable: (self.not_applicable + 1) as usize,
                ..self
            },
        }
    }

    /// Counts a verdict.
    pub fn record(&mut self, verdict: Verdict)
        requires
            match verdict {
                Verdict::Held => old(self).held < usize::MAX,
                Verdict::Violated => old(self).violated < usize::MAX,
                Verdict::NotApplicable => old(self).not_applicable < usize::MAX,
            },
        ensures
            *final(self) == old(self).with(verdict),
    {
        match verdict {
            Verdict::Held => {
                self.held = self.held + 1;
            },
            Verdict::Violated => {
                self.violated = self.violated + 1;
            },
            Verdict::NotApplicable => {
                self.not_applicable = self.not_applicable + 1;
            },
        }
    }

    /// How many cases the relation judged. This is what any rate is taken of.
    pub fn judged(&self) -> (r: usize)
        requires
            self.held + self.violated <= usize::MAX,
        ensures
            r == self.held + self.violated,
    {
        self.held + self.violated
    }
}

// ---- laws ----

proof fn lemma_last_position(perm: Seq<i64>, n: nat, i: int)
    requires
        is_permutation(perm, perm.len()),
        n <= perm.len(),
        0 <= i < n,
    ensures
        last_position(perm, perm[i] as int, n) == i,
    decreases n,
{
    if perm[n - 1] == perm[i] {
        if i < n - 1 {
            assert(perm[i] != perm[n - 1]);
        }
    } else {
        lemma_last_position(perm, (n - 1) as nat, i);
    }
}

/// A permutation followed by its inverse leaves every axis where it was.
pub proof fn lemma_a_permutation_and_its_inverse_cancel(perm: Seq<i64>, i: int)
    requires
        is_permutation(perm, perm.len()),
        perm.len() <= i64::MAX,
        0 <= i < perm.len(),
    ensures
        inverse_of(perm)[perm[i] as int] == i,
{
    lemma_last_position(perm, perm.len(), i);
}

/// The case at the earlier opset version differs in the version alone, and that is lower.
pub proof fn lemma_only_the_opset_changes(c: CaseModel)
    requires
        earlier_case(c) is Some,
    ensures
        ({
            let e = earlier_case(c)->0;
            e.op == c.op && e.inputs == c.inputs && e.attrs == c.attrs && e.opset < c.opset
                && valid(e)
        }),
{
}

/// What does not apply is never counted as judged.
pub proof fn lemma_what_does_not_apply_is_not_judged(t: Tally)
    ensures
        t.with(Verdict::NotApplicable).held == t.held,
        t.with(Verdict::NotApplicable).violated == t.violated,
{
}

} // verus!
