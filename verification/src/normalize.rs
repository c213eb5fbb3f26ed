//! One form for every runtime's answer, and what it means for two answers to agree.
//!
//! Answers are compared bit for bit. Nothing is rounded and nothing is tolerated, with one
//! exception: a `NaN` agrees with any other `NaN`, because no specification says which payload
//! an operation passes on. Such an agreement is licensed rather than exact, and the oracle knows
//! the difference.

use vstd::prelude::*;

use crate::bits::{f32_abs, f32_is_nan, f64_abs, f64_is_nan};
use crate::case::{ElemType, TensorModel, TensorValue};
use crate::outcome::{OnnxOutcome, OutcomeModel};
use crate::text::{clip, decimal, decimal_text, last_line, last_line_clipped, same_text};

verus! {

// ---- canonical form ----

/// A tensor as it is compared: shape, type and bits. Names are left out.
#[derive(Debug, Clone, PartialEq, Eq, Hash)]
pub struct CanonTensor {
    pub dims: Vec<i64>,
    pub elem_type: ElemType,
    pub bits: Vec<u64>,
    /// Whether there are elements and none of them is a finite number.
    pub entirely_undefined: bool,
}

/// What a [`CanonTensor`] holds.
#[verifier::ext_equal]
pub struct CanonModel {
    pub dims: Seq<i64>,
    pub elem_type: ElemType,
    pub bits: Seq<u64>,
    pub entirely_undefined: bool,
}

impl View for CanonTensor {
    type V = CanonModel;

    open spec fn view(&self) -> CanonModel {
        CanonModel {
            dims: self.dims@,
            elem_type: self.elem_type,
            bits: self.bits@,
            entirely_undefined: self.entirely_undefined,
        }
    }
}

/// The canonical form of a tensor.
pub open spec fn canon_of(t: TensorModel) -> CanonModel {
    CanonModel {
        dims: t.dims,
        elem_type: t.elem_type(),
        bits: t.data.bit_keys(),
        entirely_undefined: t.data.entirely_undefined(),
    }
}

impl CanonTensor {
    /// The canonical form of a tensor.
    pub fn of(tensor: &TensorValue) -> (r: Self)
        ensures
            r@ == canon_of(tensor@),
    {
        let dims: Vec<i64> = tensor.dims.clone();
        assert(dims@ =~= tensor.dims@);
        CanonTensor {
            dims,
            elem_type: tensor.elem_type(),
            bits: tensor.data.to_bit_keys(),
            entirely_undefined: tensor.data.is_entirely_undefined(),
        }
    }

    pub fn is_entirely_undefined(&self) -> (r: bool)
        ensures
            r == self@.entirely_undefined,
    {
        self.entirely_undefined
    }
}

/// An answer as it is compared.
#[derive(Debug, Clone, PartialEq, Eq, Hash)]
pub struct Canonical {
    /// What kind of outcome it was.
    pub kind: &'static str,
    pub tensors: Vec<CanonTensor>,
    /// The runtime's own words, for a reader. They are never compared.
    pub detail: String,
}

/// What a [`Canonical`] holds.
#[verifier::ext_equal]
pub struct CanonicalModel {
    pub kind: Seq<char>,
    pub tensors: Seq<CanonModel>,
    pub detail: Seq<char>,
}

/// The models of a sequence of canonical tensors.
pub open spec fn canons_model(v: Seq<CanonTensor>) -> Seq<CanonModel> {
    Seq::new(v.len(), |i: int| v[i]@)
}

impl View for Canonical {
    type V = CanonicalModel;

    open spec fn view(&self) -> CanonicalModel {
        CanonicalModel {
            kind: self.kind@,
            tensors: canons_model(self.tensors@),
            detail: self.detail@,
        }
    }
}

impl CanonicalModel {
    pub open spec fn ok(self) -> bool {
        self.kind == "ok"@
    }

    pub open spec fn unsupported(self) -> bool {
        self.kind == "unsupported"@
    }

    pub open spec fn defect(self) -> bool {
        self.kind == "crashed"@ || self.kind == "timed-out"@
    }

    /// Whether the answer holds no number at all, so that agreeing with it shows nothing.
    pub open spec fn degenerate(self) -> bool {
        self.ok() && forall|i: int|
            0 <= i < self.tensors.len() ==> (#[trigger] self.tensors[i]).bits.len() == 0
                || self.tensors[i].entirely_undefined
    }
}

/// What an outcome looks like in canonical form. A message keeps its last line that says
/// anything, where error chains put their cause.
pub open spec fn normal_form(o: OutcomeModel) -> CanonicalModel {
    CanonicalModel {
        kind: o.kind(),
        tensors: match o {
            OutcomeModel::Produced(tensors) => Seq::new(tensors.len(), |i: int| canon_of(tensors[i])),
            _ => Seq::empty(),
        },
        detail: match o {
            OutcomeModel::Produced(_) => Seq::empty(),
            OutcomeModel::Rejected(detail) => clip(last_line(detail), 200),
            OutcomeModel::Unsupported(reason) => clip(last_line(reason), 200),
            OutcomeModel::Crashed(detail) => clip(last_line(detail), 200),
            OutcomeModel::TimedOut(after_ms) => decimal_text(after_ms as nat) + "ms"@,
        },
    }
}

impl Canonical {
    pub fn is_ok(&self) -> (r: bool)
        ensures
            r == self@.ok(),
    {
        same_text(self.kind, "ok")
    }

    pub fn is_unsupported(&self) -> (r: bool)
        ensures
            r == self@.unsupported(),
    {
        same_text(self.kind, "unsupported")
    }

    pub fn is_self_evident_defect(&self) -> (r: bool)
        ensures
            r == self@.defect(),
    {
        same_text(self.kind, "crashed") || same_text(self.kind, "timed-out")
    }

    /// Whether the answer holds no number at all.
    pub fn is_degenerate(&self) -> (r: bool)
        ensures
            r == self@.degenerate(),
    {
        if !self.is_ok() {
            return false;
        }
        let mut i: usize = 0;
        while i < self.tensors.len()
            invariant
                i <= self.tensors.len(),
                forall|k: int|
                    0 <= k < i ==> (#[trigger] self@.tensors[k]).bits.len() == 0
                        || self@.tensors[k].entirely_undefined,
            decreases self.tensors.len() - i,
        {
            assert(self@.tensors[i as int] == self.tensors@[i as int]@);
            if self.tensors[i].bits.len() > 0 && !self.tensors[i].is_entirely_undefined() {
                return false;
            }
            i += 1;
        }
        true
    }
}

fn normalize_detail(text: &str) -> (r: String)
    ensures
        r@ == clip(last_line(text@), 200),
{
    last_line_clipped(text, 200)
}

/// Brings outcomes to canonical form.
#[derive(Debug, Clone, Copy)]
pub struct OnnxNormalizer;

impl OnnxNormalizer {
    pub fn normalize(&self, out: OnnxOutcome) -> (r: Canonical)
        ensures
            r@ == normal_form(out@),
    {
        let kind: &'static str = out.kind();
        match out {
            OnnxOutcome::Produced(tensors) => {
                let mut canon: Vec<CanonTensor> = Vec::new();
                let mut i: usize = 0;
                while i < tensors.len()
                    invariant
                        i <= tensors.len(),
                        canon.len() == i,
                        forall|k: int| 0 <= k < i ==> (#[trigger] canon@[k])@ == canon_of(tensors@[k]@),
                    decreases tensors.len() - i,
                {
                    canon.push(CanonTensor::of(&tensors[i]));
                    i += 1;
                }
                let r: Canonical = Canonical { kind, tensors: canon, detail: String::new() };
                assert(r@.tensors =~= normal_form(out@).tensors);
                r
            },
            OnnxOutcome::Rejected { detail } => failed(kind, normalize_detail(detail.as_str())),
            OnnxOutcome::Crashed { detail } => failed(kind, normalize_detail(detail.as_str())),
            OnnxOutcome::Unsupported { reason } => failed(kind, normalize_detail(reason.as_str())),
            OnnxOutcome::TimedOut { after_ms } => {
                let mut text: String = decimal(after_ms);
                text.append("ms");
                failed(kind, text)
            },
        }
    }
}

fn failed(kind: &'static str, detail: String) -> (r: Canonical)
    ensures
        r@ == (CanonicalModel { kind: kind@, tensors: Seq::empty(), detail: detail@ }),
{
    let r: Canonical = Canonical { kind, tensors: Vec::new(), detail };
    assert(r@.tensors =~= Seq::empty());
    r
}

// ---- agreement ----

/// How two answers compare.
#[derive(Debug, Clone, Copy, PartialEq, Eq, Structural)]
pub enum Agreement {
    /// Every bit is the same.
    Exactly,
    /// The same but for the payloads of some `NaN`s.
    ByLicense,
    No,
}

/// Whether the bits of an element stand for a `NaN`.
pub open spec fn bits_are_nan(elem: ElemType, bits: u64) -> bool {
    match elem {
        ElemType::F32 => f32_is_nan(bits as u32),
        ElemType::F64 => f64_is_nan(bits),
        _ => false,
    }
}

/// How two elements of one type compare.
pub open spec fn element_agreement(elem: ElemType, left: u64, right: u64) -> Agreement {
    if left == right {
        Agreement::Exactly
    } else if bits_are_nan(elem, left) && bits_are_nan(elem, right) {
        Agreement::ByLicense
    } else {
        Agreement::No
    }
}

/// Whether two tensors have the same shape, type and number of elements.
pub open spec fn same_form(a: CanonModel, b: CanonModel) -> bool {
    a.dims == b.dims && a.elem_type == b.elem_type && a.bits.len() == b.bits.len()
}

/// How two tensors compare.
pub open spec fn tensor_agreement(a: CanonModel, b: CanonModel) -> Agreement {
    if !same_form(a, b) || exists|e: int|
        0 <= e < a.bits.len() && #[trigger] element_agreement(a.elem_type, a.bits[e], b.bits[e])
            == Agreement::No {
        Agreement::No
    } else if a.bits == b.bits {
        Agreement::Exactly
    } else {
        Agreement::ByLicense
    }
}

/// How two lists of tensors compare.
pub open spec fn tensors_agreement(left: Seq<CanonModel>, right: Seq<CanonModel>) -> Agreement {
    if left.len() != right.len() || exists|t: int|
        0 <= t < left.len() && #[trigger] tensor_agreement(left[t], right[t]) == Agreement::No {
        Agreement::No
    } else if exists|t: int|
        0 <= t < left.len() && #[trigger] tensor_agreement(left[t], right[t])
            == Agreement::ByLicense {
        Agreement::ByLicense
    } else {
        Agreement::Exactly
    }
}

/// Whether a kind of outcome is a failure, whose message is never compared.
pub open spec fn failure_kind(kind: Seq<char>) -> bool {
    kind == "rejected"@ || kind == "unsupported"@ || kind == "crashed"@ || kind == "timed-out"@
}

/// How two answers compare. Failures of one kind agree, whatever they say.
pub open spec fn agreement(left: CanonicalModel, right: CanonicalModel) -> Agreement {
    if left.kind != right.kind {
        Agreement::No
    } else if failure_kind(left.kind) {
        Agreement::Exactly
    } else {
        tensors_agreement(left.tensors, right.tensors)
    }
}

/// Whether two answers agree, exactly or by license.
pub open spec fn agree(left: CanonicalModel, right: CanonicalModel) -> bool {
    agreement(left, right) != Agreement::No
}

/// How many elements of two tensors, up to position `n`, agree by license only.
pub open spec fn licensed_in(a: CanonModel, b: CanonModel, n: nat) -> nat
    decreases n,
{
    if n == 0 {
        0
    } else {
        licensed_in(a, b, (n - 1) as nat) + if element_agreement(
            a.elem_type,
            a.bits[n - 1],
            b.bits[n - 1],
        ) == Agreement::ByLicense {
            1nat
        } else {
            0nat
        }
    }
}

/// How many elements of the first `n` pairs of tensors agree by license only.
pub open spec fn licensed_upto(left: Seq<CanonModel>, right: Seq<CanonModel>, n: nat) -> nat
    decreases n,
{
    if n == 0 {
        0
    } else {
        let a = left[n - 1];
        let b = right[n - 1];
        licensed_upto(left, right, (n - 1) as nat) + if a.elem_type == b.elem_type && a.bits.len()
            == b.bits.len() {
            licensed_in(a, b, a.bits.len())
        } else {
            0
        }
    }
}

/// The shorter of two lengths.
pub open spec fn shorter(a: nat, b: nat) -> nat {
    if a <= b {
        a
    } else {
        b
    }
}

/// How many elements of two answers agree by license only.
pub open spec fn licensed_count(left: CanonicalModel, right: CanonicalModel) -> nat {
    licensed_upto(left.tensors, right.tensors, shorter(left.tensors.len(), right.tensors.len()))
}

/// How many elements the first `n` tensors of an answer hold.
pub open spec fn elements_upto(tensors: Seq<CanonModel>, n: nat) -> nat
    decreases n,
{
    if n == 0 {
        0
    } else {
        elements_upto(tensors, (n - 1) as nat) + tensors[n - 1].bits.len()
    }
}

/// How many elements an answer holds.
pub open spec fn element_total(c: CanonicalModel) -> nat {
    elements_upto(c.tensors, c.tensors.len())
}

fn values_agree(elem: ElemType, left: u64, right: u64) -> (r: Agreement)
    ensures
        r == element_agreement(elem, left, right),
{
    if left == right {
        return Agreement::Exactly;
    }
    let both_nan: bool = match elem {
        ElemType::F32 => {
            let a: u32 = #[verifier::truncate] (left as u32);
            let b: u32 = #[verifier::truncate] (right as u32);
            f32_abs(a) > 0x7f80_0000 && f32_abs(b) > 0x7f80_0000
        },
        ElemType::F64 => f64_abs(left) > 0x7ff0_0000_0000_0000 && f64_abs(right)
            > 0x7ff0_0000_0000_0000,
        _ => false,
    };
    if both_nan {
        Agreement::ByLicense
    } else {
        Agreement::No
    }
}

fn tensor_pair_agrees(a: &CanonTensor, b: &CanonTensor) -> (r: Agreement)
    ensures
        r == tensor_agreement(a@, b@),
{
    let same_dims: bool = a.dims == b.dims;
    assert(same_dims ==> a.dims@ =~= b.dims@);
    if !same_dims || a.elem_type != b.elem_type || a.bits.len() != b.bits.len() {
        return Agreement::No;
    }
    let mut verdict: Agreement = Agreement::Exactly;
    let mut e: usize = 0;
    while e < a.bits.len()
        invariant
            e <= a.bits.len() == b.bits.len(),
            same_form(a@, b@),
            forall|k: int|
                0 <= k < e ==> #[trigger] element_agreement(a.elem_type, a.bits@[k], b.bits@[k])
                    != Agreement::No,
            verdict == Agreement::Exactly ==> forall|k: int|
                0 <= k < e ==> #[trigger] a.bits@[k] == b.bits@[k],
            verdict != Agreement::Exactly ==> verdict == Agreement::ByLicense && exists|k: int|
                0 <= k < e && #[trigger] a.bits@[k] != b.bits@[k],
        decreases a.bits.len() - e,
    {
        match values_agree(a.elem_type, a.bits[e], b.bits[e]) {
            Agreement::No => {
                assert(element_agreement(a@.elem_type, a@.bits[e as int], b@.bits[e as int])
                    == Agreement::No);
                return Agreement::No;
            },
            Agreement::ByLicense => {
                assert(a.bits@[e as int] != b.bits@[e as int]);
                verdict = Agreement::ByLicense;
            },
            Agreement::Exactly => {},
        }
        e += 1;
    }
    assert(verdict == Agreement::Exactly ==> a@.bits =~= b@.bits);
    verdict
}

fn tensors_agree(left: &Vec<CanonTensor>, right: &Vec<CanonTensor>) -> (r: Agreement)
    ensures
        r == tensors_agreement(canons_model(left@), canons_model(right@)),
{
    let ghost l = canons_model(left@);
    let ghost r = canons_model(right@);
    if left.len() != right.len() {
        return Agreement::No;
    }
    let mut verdict: Agreement = Agreement::Exactly;
    let mut t: usize = 0;
    while t < left.len()
        invariant
            t <= left.len() == right.len(),
            l == canons_model(left@),
            r == canons_model(right@),
            forall|k: int| 0 <= k < t ==> #[trigger] tensor_agreement(l[k], r[k]) != Agreement::No,
            verdict == Agreement::Exactly ==> forall|k: int|
                0 <= k < t ==> #[trigger] tensor_agreement(l[k], r[k]) == Agreement::Exactly,
            verdict != Agreement::Exactly ==> verdict == Agreement::ByLicense && exists|k: int|
                0 <= k < t && #[trigger] tensor_agreement(l[k], r[k]) == Agreement::ByLicense,
        decreases left.len() - t,
    {
        assert(l[t as int] == left@[t as int]@ && r[t as int] == right@[t as int]@);
        match tensor_pair_agrees(&left[t], &right[t]) {
            Agreement::No => {
                assert(tensor_agreement(l[t as int], r[t as int]) == Agreement::No);
                return Agreement::No;
            },
            Agreement::ByLicense => {
                assert(tensor_agreement(l[t as int], r[t as int]) == Agreement::ByLicense);
                verdict = Agreement::ByLicense;
            },
            Agreement::Exactly => {},
        }
        t += 1;
    }
    verdict
}

/// How two answers compare.
pub fn compare(left: &Canonical, right: &Canonical) -> (r: Agreement)
    ensures
        r == agreement(left@, right@),
{
    if !same_text(left.kind, right.kind) {
        return Agreement::No;
    }
    if same_text(left.kind, "rejected") || same_text(left.kind, "unsupported") || same_text(
        left.kind,
        "crashed",
    ) || same_text(left.kind, "timed-out") {
        return Agreement::Exactly;
    }
    tensors_agree(&left.tensors, &right.tensors)
}

/// Whether two answers agree, exactly or by license.
pub fn equivalent(left: &Canonical, right: &Canonical) -> (r: bool)
    ensures
        r == agree(left@, right@),
{
    match compare(left, right) {
        Agreement::No => false,
        _ => true,
    }
}

pub proof fn lemma_licensed_in_bound(a: CanonModel, b: CanonModel, n: nat)
    ensures
        licensed_in(a, b, n) <= n,
    decreases n,
{
    if n > 0 {
        lemma_licensed_in_bound(a, b, (n - 1) as nat);
    }
}

pub proof fn lemma_licensed_upto_bound(left: Seq<CanonModel>, right: Seq<CanonModel>, n: nat)
    requires
        n <= left.len(),
    ensures
        licensed_upto(left, right, n) <= elements_upto(left, n) <= elements_upto(
            left,
            left.len(),
        ),
    decreases n,
{
    if n > 0 {
        lemma_licensed_upto_bound(left, right, (n - 1) as nat);
        lemma_licensed_in_bound(left[n - 1], right[n - 1], left[n - 1].bits.len());
    }
    lemma_elements_grow(left, n, left.len());
}

pub proof fn lemma_elements_grow(tensors: Seq<CanonModel>, a: nat, b: nat)
    requires
        a <= b,
    ensures
        elements_upto(tensors, a) <= elements_upto(tensors, b),
    decreases b,
{
    if a < b {
        lemma_elements_grow(tensors, a, (b - 1) as nat);
    }
}

/// How many elements of two answers agree by license only.
pub fn licensed_elements(left: &Canonical, right: &Canonical) -> (r: usize)
    requires
        element_total(left@) <= usize::MAX,
    ensures
        r == licensed_count(left@, right@),
{
    let ghost l = left@.tensors;
    let ghost r = right@.tensors;
    let n: usize = if left.tensors.len() <= right.tensors.len() {
        left.tensors.len()
    } else {
        right.tensors.len()
    };
    let mut total: usize = 0;
    let mut t: usize = 0;
    while t < n
        invariant
            t <= n <= left.tensors.len(),
            n <= right.tensors.len(),
            l == left@.tensors,
            r == right@.tensors,
            element_total(left@) <= usize::MAX,
            total == licensed_upto(l, r, t as nat),
        decreases n - t,
    {
        let a: &CanonTensor = &left.tensors[t];
        let b: &CanonTensor = &right.tensors[t];
        assert(l[t as int] == a@ && r[t as int] == b@);
        proof {
            lemma_licensed_upto_bound(l, r, (t + 1) as nat);
        }
        if a.elem_type == b.elem_type && a.bits.len() == b.bits.len() {
            let mut count: usize = 0;
            let mut e: usize = 0;
            while e < a.bits.len()
                invariant
                    e <= a.bits.len() == b.bits.len(),
                    count == licensed_in(a@, b@, e as nat),
                    count <= e,
                decreases a.bits.len() - e,
            {
                if values_agree(a.elem_type, a.bits[e], b.bits[e]) == Agreement::ByLicense {
                    count += 1;
                }
                e += 1;
            }
            total += count;
        }
        t += 1;
    }
    total
}

// ---- what agreement guarantees ----

proof fn lemma_tensor_agreement_symmetric(a: CanonModel, b: CanonModel)
    ensures
        tensor_agreement(a, b) == tensor_agreement(b, a),
{
    if same_form(a, b) {
        assert forall|e: int|
            #[trigger] element_agreement(a.elem_type, a.bits[e], b.bits[e]) == element_agreement(
                b.elem_type,
                b.bits[e],
                a.bits[e],
            ) by {}
        if exists|e: int|
            0 <= e < a.bits.len() && #[trigger] element_agreement(
                a.elem_type,
                a.bits[e],
                b.bits[e],
            ) == Agreement::No {
            let e = choose|e: int|
                0 <= e < a.bits.len() && #[trigger] element_agreement(
                    a.elem_type,
                    a.bits[e],
                    b.bits[e],
                ) == Agreement::No;
            assert(element_agreement(b.elem_type, b.bits[e], a.bits[e]) == Agreement::No);
        }
        if exists|e: int|
            0 <= e < b.bits.len() && #[trigger] element_agreement(
                b.elem_type,
                b.bits[e],
                a.bits[e],
            ) == Agreement::No {
            let e = choose|e: int|
                0 <= e < b.bits.len() && #[trigger] element_agreement(
                    b.elem_type,
                    b.bits[e],
                    a.bits[e],
                ) == Agreement::No;
            assert(element_agreement(a.elem_type, a.bits[e], b.bits[e]) == Agreement::No);
        }
    }
}

/// It does not matter which of two answers is called left.
pub proof fn lemma_agreement_is_symmetric(a: CanonicalModel, b: CanonicalModel)
    ensures
        agreement(a, b) == agreement(b, a),
{
    if a.tensors.len() == b.tensors.len() {
        assert forall|t: int|
            0 <= t < a.tensors.len() implies #[trigger] tensor_agreement(a.tensors[t], b.tensors[t])
            == tensor_agreement(b.tensors[t], a.tensors[t]) by {
            lemma_tensor_agreement_symmetric(a.tensors[t], b.tensors[t]);
        }
        assert forall|t: int|
            0 <= t < a.tensors.len() implies #[trigger] tensor_agreement(b.tensors[t], a.tensors[t])
            == tensor_agreement(a.tensors[t], b.tensors[t]) by {
            lemma_tensor_agreement_symmetric(a.tensors[t], b.tensors[t]);
        }
    }
}

/// An answer agrees exactly with itself, even one full of `NaN`s.
pub proof fn lemma_agreement_is_reflexive(a: CanonicalModel)
    ensures
        agreement(a, a) == Agreement::Exactly,
{
    assert forall|t: int| 0 <= t < a.tensors.len() implies #[trigger] tensor_agreement(
        a.tensors[t],
        a.tensors[t],
    ) == Agreement::Exactly by {}
}

/// Whether two tensors agree, exactly or by license, element by element.
spec fn tensors_related(a: CanonModel, b: CanonModel) -> bool {
    same_form(a, b) && forall|e: int|
        0 <= e < a.bits.len() ==> #[trigger] element_agreement(a.elem_type, a.bits[e], b.bits[e])
            != Agreement::No
}

proof fn lemma_tensor_agreement_transitive(a: CanonModel, b: CanonModel, c: CanonModel)
    requires
        tensor_agreement(a, b) != Agreement::No,
        tensor_agreement(b, c) != Agreement::No,
    ensures
        tensor_agreement(a, c) != Agreement::No,
        tensor_agreement(a, b) == Agreement::Exactly && tensor_agreement(b, c)
            == Agreement::Exactly ==> tensor_agreement(a, c) == Agreement::Exactly,
{
    assert(tensors_related(a, b));
    assert(tensors_related(b, c));
    assert forall|e: int| 0 <= e < a.bits.len() implies #[trigger] element_agreement(
        a.elem_type,
        a.bits[e],
        c.bits[e],
    ) != Agreement::No by {
        assert(element_agreement(a.elem_type, a.bits[e], b.bits[e]) != Agreement::No);
        assert(element_agreement(b.elem_type, b.bits[e], c.bits[e]) != Agreement::No);
    }
}

/// Answers that agree with a common one agree with each other, so comparing each answer with one
/// member of a group sorts all of them.
pub proof fn lemma_agreement_is_transitive(
    a: CanonicalModel,
    b: CanonicalModel,
    c: CanonicalModel,
)
    requires
        agree(a, b),
        agree(b, c),
    ensures
        agree(a, c),
        agreement(a, b) == Agreement::Exactly && agreement(b, c) == Agreement::Exactly ==> agreement(
            a,
            c,
        ) == Agreement::Exactly,
{
    if !failure_kind(a.kind) {
        assert forall|t: int| 0 <= t < a.tensors.len() implies #[trigger] tensor_agreement(
            a.tensors[t],
            c.tensors[t],
        ) != Agreement::No && (agreement(a, b) == Agreement::Exactly && agreement(b, c)
            == Agreement::Exactly ==> tensor_agreement(a.tensors[t], c.tensors[t])
            == Agreement::Exactly) by {
            assert(tensor_agreement(a.tensors[t], b.tensors[t]) != Agreement::No);
            assert(tensor_agreement(b.tensors[t], c.tensors[t]) != Agreement::No);
            lemma_tensor_agreement_transitive(a.tensors[t], b.tensors[t], c.tensors[t]);
        }
    }
}

proof fn lemma_licensed_in_grows(a: CanonModel, b: CanonModel, e: int, n: nat)
    requires
        0 <= e < n,
        element_agreement(a.elem_type, a.bits[e], b.bits[e]) == Agreement::ByLicense,
    ensures
        licensed_in(a, b, n) > 0,
    decreases n,
{
    if e < n - 1 {
        lemma_licensed_in_grows(a, b, e, (n - 1) as nat);
    }
}

proof fn lemma_licensed_upto_grows(left: Seq<CanonModel>, right: Seq<CanonModel>, t: int, n: nat)
    requires
        0 <= t < n,
        tensor_agreement(left[t], right[t]) == Agreement::ByLicense,
    ensures
        licensed_upto(left, right, n) > 0,
    decreases n,
{
    if t < n - 1 {
        lemma_licensed_upto_grows(left, right, t, (n - 1) as nat);
    } else {
        let a = left[t];
        let b = right[t];
        assert(!(a.bits =~= b.bits));
        let e = choose|e: int| 0 <= e < a.bits.len() && a.bits[e] != b.bits[e];
        assert(element_agreement(a.elem_type, a.bits[e], b.bits[e]) != Agreement::No);
        lemma_licensed_in_grows(a, b, e, a.bits.len());
    }
}

/// An agreement by license shows in the count of licensed elements.
pub proof fn lemma_a_license_is_counted(a: CanonicalModel, b: CanonicalModel)
    requires
        agreement(a, b) == Agreement::ByLicense,
    ensures
        licensed_count(a, b) > 0,
{
    let t = choose|t: int|
        0 <= t < a.tensors.len() && #[trigger] tensor_agreement(a.tensors[t], b.tensors[t])
            == Agreement::ByLicense;
    lemma_licensed_upto_grows(a.tensors, b.tensors, t, a.tensors.len());
}

/// Nothing is forgiven but the payload of a `NaN`: where two answers with tensors agree, every
/// element is the same bit for bit or is a `NaN` on both sides.
pub proof fn lemma_only_nan_payloads_are_forgiven(
    a: CanonicalModel,
    b: CanonicalModel,
    t: int,
    e: int,
)
    requires
        agree(a, b),
        !failure_kind(a.kind),
        0 <= t < a.tensors.len(),
        0 <= e < a.tensors[t].bits.len(),
    ensures
        t < b.tensors.len(),
        e < b.tensors[t].bits.len(),
        a.tensors[t].dims == b.tensors[t].dims,
        a.tensors[t].elem_type == b.tensors[t].elem_type,
        a.tensors[t].bits[e] == b.tensors[t].bits[e] || (bits_are_nan(
            a.tensors[t].elem_type,
            a.tensors[t].bits[e],
        ) && bits_are_nan(a.tensors[t].elem_type, b.tensors[t].bits[e])),
{
    assert(tensor_agreement(a.tensors[t], b.tensors[t]) != Agreement::No);
    assert(element_agreement(
        a.tensors[t].elem_type,
        a.tensors[t].bits[e],
        b.tensors[t].bits[e],
    ) != Agreement::No);
}

} // verus!
