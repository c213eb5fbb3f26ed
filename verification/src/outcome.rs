//! What a runtime did with a case.
//!
//! A failure is a value like any other. A crash on a valid model is a finding, so it must reach
//! the oracle instead of being filed as "this participant could not be compared".

use vstd::prelude::*;

use crate::case::{clone_tensors, tensors_model, TensorModel, TensorValue};
use crate::text::{decimal, decimal_text, digits_text, first_line, first_line_trimmed, hex};
use crate::text::{integers, integers_text, join, join_text, texts, trim};

verus! {

/// What a runtime did with a case.
#[derive(Debug, PartialEq, Eq)]
pub enum OnnxOutcome {
    /// It produced tensors.
    Produced(Vec<TensorValue>),
    /// It returned an error.
    Rejected { detail: String },
    /// It says that it does not implement the operator.
    Unsupported { reason: String },
    /// It panicked or brought its process down.
    Crashed { detail: String },
    /// It did not answer in time.
    TimedOut { after_ms: u64 },
}

/// What an [`OnnxOutcome`] holds.
#[verifier::ext_equal]
pub enum OutcomeModel {
    Produced(Seq<TensorModel>),
    Rejected(Seq<char>),
    Unsupported(Seq<char>),
    Crashed(Seq<char>),
    TimedOut(u64),
}

impl View for OnnxOutcome {
    type V = OutcomeModel;

    open spec fn view(&self) -> OutcomeModel {
        match self {
            OnnxOutcome::Produced(tensors) => OutcomeModel::Produced(tensors_model(tensors@)),
            OnnxOutcome::Rejected { detail } => OutcomeModel::Rejected(detail@),
            OnnxOutcome::Unsupported { reason } => OutcomeModel::Unsupported(reason@),
            OnnxOutcome::Crashed { detail } => OutcomeModel::Crashed(detail@),
            OnnxOutcome::TimedOut { after_ms } => OutcomeModel::TimedOut(*after_ms),
        }
    }
}

impl OutcomeModel {
    /// The name of the kind of outcome.
    pub open spec fn kind(self) -> Seq<char> {
        match self {
            OutcomeModel::Produced(_) => "ok"@,
            OutcomeModel::Rejected(_) => "rejected"@,
            OutcomeModel::Unsupported(_) => "unsupported"@,
            OutcomeModel::Crashed(_) => "crashed"@,
            OutcomeModel::TimedOut(_) => "timed-out"@,
        }
    }
}

/// How a tensor is written in an outcome: its shape, its type, and its elements' bits.
pub open spec fn tensor_text(t: TensorModel) -> Seq<char> {
    integers_text(t.dims) + "="@ + t.elem_type().text() + "["@ + join_text(
        Seq::new(t.data.len(), |i: int| "0x"@ + digits_text(t.data.bits(i) as nat, 16)),
        " "@,
    ) + "]"@
}

/// How an outcome is written.
pub open spec fn outcome_text(o: OutcomeModel) -> Seq<char> {
    match o {
        OutcomeModel::Produced(tensors) => "ok("@ + join_text(
            Seq::new(tensors.len(), |i: int| tensor_text(tensors[i])),
            ", "@,
        ) + ")"@,
        OutcomeModel::Rejected(detail) => "rejected: "@ + trim(first_line(detail)),
        OutcomeModel::Unsupported(reason) => "unsupported: "@ + trim(first_line(reason)),
        OutcomeModel::Crashed(detail) => "CRASHED: "@ + trim(first_line(detail)),
        OutcomeModel::TimedOut(after_ms) => "TIMED OUT after "@ + decimal_text(after_ms as nat)
            + "ms"@,
    }
}

impl Clone for OnnxOutcome {
    fn clone(&self) -> (r: Self)
        ensures
            r@ == self@,
    {
        match self {
            OnnxOutcome::Produced(tensors) => OnnxOutcome::Produced(clone_tensors(tensors)),
            OnnxOutcome::Rejected { detail } => OnnxOutcome::Rejected { detail: detail.clone() },
            OnnxOutcome::Unsupported { reason } => OnnxOutcome::Unsupported {
                reason: reason.clone(),
            },
            OnnxOutcome::Crashed { detail } => OnnxOutcome::Crashed { detail: detail.clone() },
            OnnxOutcome::TimedOut { after_ms } => OnnxOutcome::TimedOut { after_ms: *after_ms },
        }
    }
}

fn write_tensor(t: &TensorValue) -> (r: String)
    ensures
        r@ == tensor_text(t@),
{
    let mut out: String = integers(&t.dims);
    out.append("=");
    out.append(t.elem_type().name());
    out.append("[");
    let n: usize = t.data.len();
    let mut parts: Vec<String> = Vec::new();
    let mut i: usize = 0;
    while i < n
        invariant
            i <= n,
            n == t@.data.len(),
            parts.len() == i,
            forall|k: int|
                0 <= k < i ==> (#[trigger] parts@[k])@ == "0x"@ + digits_text(
                    t@.data.bits(k) as nat,
                    16,
                ),
        decreases n - i,
    {
        let mut part: String = "0x".to_owned();
        part.append(hex(t.data.bit_key(i), 0).as_str());
        parts.push(part);
        i += 1;
    }
    assert(texts(parts@) =~= Seq::new(
        t@.data.len(),
        |i: int| "0x"@ + digits_text(t@.data.bits(i) as nat, 16),
    ));
    out.append(join(&parts, " ").as_str());
    out.append("]");
    out
}

impl OnnxOutcome {
    /// The tensors, where there are any.
    pub fn tensors(&self) -> (r: Option<&[TensorValue]>)
        ensures
            r is Some <==> self@ is Produced,
            r matches Some(v) ==> self@ == OutcomeModel::Produced(tensors_model(v@)),
    {
        match self {
            OnnxOutcome::Produced(tensors) => Some(tensors.as_slice()),
            _ => None,
        }
    }

    /// Whether the outcome is a defect whatever anybody else answered.
    pub fn is_self_evident_defect(&self) -> (r: bool)
        ensures
            r == (self@ is Crashed || self@ is TimedOut),
    {
        match self {
            OnnxOutcome::Crashed { .. } | OnnxOutcome::TimedOut { .. } => true,
            _ => false,
        }
    }

    /// Whether the outcome is a declared gap, which is nobody's defect.
    pub fn is_legitimate_skip(&self) -> (r: bool)
        ensures
            r == (self@ is Unsupported),
    {
        match self {
            OnnxOutcome::Unsupported { .. } => true,
            _ => false,
        }
    }

    /// The name of the kind of outcome.
    pub fn kind(&self) -> (r: &'static str)
        ensures
            r@ == self@.kind(),
    {
        match self {
            OnnxOutcome::Produced(_) => "ok",
            OnnxOutcome::Rejected { .. } => "rejected",
            OnnxOutcome::Unsupported { .. } => "unsupported",
            OnnxOutcome::Crashed { .. } => "crashed",
            OnnxOutcome::TimedOut { .. } => "timed-out",
        }
    }

    /// The outcome in one line.
    pub fn describe(&self) -> (r: String)
        ensures
            r@ == outcome_text(self@),
    {
        match self {
            OnnxOutcome::Produced(tensors) => {
                let mut parts: Vec<String> = Vec::new();
                let mut i: usize = 0;
                while i < tensors.len()
                    invariant
                        i <= tensors.len(),
                        parts.len() == i,
                        forall|k: int| 0 <= k < i ==> (#[trigger] parts@[k])@ == tensor_text(tensors@[k]@),
                    decreases tensors.len() - i,
                {
                    parts.push(write_tensor(&tensors[i]));
                    i += 1;
                }
                let ghost model = tensors_model(tensors@);
                assert(texts(parts@) =~= Seq::new(model.len(), |i: int| tensor_text(model[i])));
                let mut out: String = "ok(".to_owned();
                out.append(join(&parts, ", ").as_str());
                out.append(")");
                out
            },
            OnnxOutcome::Rejected { detail } => {
                let mut out: String = "rejected: ".to_owned();
                out.append(first_line_trimmed(detail.as_str()).as_str());
                out
            },
            OnnxOutcome::Unsupported { reason } => {
                let mut out: String = "unsupported: ".to_owned();
                out.append(first_line_trimmed(reason.as_str()).as_str());
                out
            },
            OnnxOutcome::Crashed { detail } => {
                let mut out: String = "CRASHED: ".to_owned();
                out.append(first_line_trimmed(detail.as_str()).as_str());
                out
            },
            OnnxOutcome::TimedOut { after_ms } => {
                let mut out: String = "TIMED OUT after ".to_owned();
                out.append(decimal(*after_ms).as_str());
                out.append("ms");
                out
            },
        }
    }
}

} // verus!
