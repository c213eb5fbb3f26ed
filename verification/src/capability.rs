//! What each runtime claims to support, taken from a census.
//!
//! A runtime that does not implement an operator and one that does and failed look the same from
//! outside. What tells them apart is what the runtime claims. The inference runs one way: a claim
//! makes a failure reportable, and nothing makes one unreportable. What was never measured is not
//! claimed, and a crash is never excused.

use vstd::prelude::*;

use crate::case::{CaseModel, ElemType, OnnxCase, OpKind};
use crate::census::{cells_model, Cell, CellModel, Census, Support};
use crate::environment::{components_of, copy_components, version_in, version_of};
use crate::ops::{data_elem_of, data_elem_type, output_fits, required_elem_types, requires_type};
use crate::order::{distinct, lemma_distinct_keeps_the_members, name_set, sort_texts};
use crate::outcome::{OnnxOutcome, OutcomeModel};
use crate::text::{first_line, first_line_of, join, join_text, same_text, texts};

verus! {

/// A runtime, an operator and an element type.
#[derive(Debug)]
pub struct Combination {
    pub runtime: String,
    pub op: String,
    pub elem_type: ElemType,
}

/// What a [`Combination`] holds.
pub type Key = (Seq<char>, Seq<char>, ElemType);

impl View for Combination {
    type V = Key;

    open spec fn view(&self) -> Key {
        (self.runtime@, self.op@, self.elem_type)
    }
}

/// The models of a sequence of combinations.
pub open spec fn keys_of(v: Seq<Combination>) -> Seq<Key> {
    Seq::new(v.len(), |i: int| v[i]@)
}

/// The combinations that a sequence of cells is about.
pub open spec fn cell_keys(cells: Seq<CellModel>) -> Seq<Key> {
    Seq::new(cells.len(), |i: int| (cells[i].runtime, cells[i].op, cells[i].elem_type))
}

/// The cells that make a claim: only a result does. An error may be a refusal, and a refusal must
/// not become an accusation.
pub open spec fn claiming(cells: Seq<CellModel>) -> Seq<CellModel> {
    cells.filter(|c: CellModel| c.support == Support::Supported)
}

/// What the runtimes claim.
#[derive(Debug)]
pub struct Capabilities {
    claimed: Vec<Combination>,
    measured: Vec<Combination>,
    environment: Vec<(String, String)>,
    taken: String,
    opset: i64,
}

/// What [`Capabilities`] hold. Each combination is listed once.
pub struct CapabilitiesModel {
    pub claimed: Seq<Key>,
    pub measured: Seq<Key>,
    pub environment: Seq<(Seq<char>, Seq<char>)>,
    pub taken: Seq<char>,
    pub opset: i64,
}

impl View for Capabilities {
    type V = CapabilitiesModel;

    closed spec fn view(&self) -> CapabilitiesModel {
        CapabilitiesModel {
            claimed: keys_of(self.claimed@),
            measured: keys_of(self.measured@),
            environment: components_of(self.environment@),
            taken: self.taken@,
            opset: self.opset,
        }
    }
}

impl CapabilitiesModel {
    /// Whether a runtime claims an operator at a type.
    pub open spec fn claim(self, runtime: Seq<char>, op: OpKind, elem: ElemType) -> bool {
        self.claimed.contains((runtime, op.text(), elem))
    }

    /// Whether a runtime produced a result at a type, for some operator.
    pub open spec fn represents(self, runtime: Seq<char>, elem: ElemType) -> bool {
        exists|i: int|
            0 <= i < self.claimed.len() && (#[trigger] self.claimed[i]).0 == runtime
                && self.claimed[i].2 == elem
    }

    /// Whether a runtime claims anything.
    pub open spec fn claims_anything(self, runtime: Seq<char>) -> bool {
        exists|i: int| 0 <= i < self.claimed.len() && (#[trigger] self.claimed[i]).0 == runtime
    }

    /// Whether a runtime is known to be unable to hold a type. Of a runtime that was never measured
    /// nothing is known.
    pub open spec fn cannot_hold(self, runtime: Seq<char>, elem: ElemType) -> bool {
        self.claims_anything(runtime) && !self.represents(runtime, elem)
    }
}

fn same_combination(a: &Combination, runtime: &str, op: &str, elem: ElemType) -> (r: bool)
    ensures
        r == (a@ == (runtime@, op@, elem)),
{
    a.elem_type == elem && same_text(a.runtime.as_str(), runtime) && same_text(a.op.as_str(), op)
}

/// Whether a list holds a combination.
fn holds(list: &Vec<Combination>, runtime: &str, op: &str, elem: ElemType) -> (r: bool)
    ensures
        r == keys_of(list@).contains((runtime@, op@, elem)),
{
    let mut i: usize = 0;
    while i < list.len()
        invariant
            i <= list.len(),
            forall|k: int| 0 <= k < i ==> #[trigger] keys_of(list@)[k] != (runtime@, op@, elem),
        decreases list.len() - i,
    {
        if same_combination(&list[i], runtime, op, elem) {
            assert(keys_of(list@)[i as int] == (runtime@, op@, elem));
            return true;
        }
        i += 1;
    }
    false
}

/// Adds a combination that a list does not hold yet.
fn insert(list: &mut Vec<Combination>, cell: &Cell)
    ensures
        ({
            let key = (cell@.runtime, cell@.op, cell@.elem_type);
            keys_of(final(list)@) == (if keys_of(old(list)@).contains(key) {
                keys_of(old(list)@)
            } else {
                keys_of(old(list)@).push(key)
            })
        }),
{
    if !holds(list, cell.runtime.as_str(), cell.op.as_str(), cell.elem_type) {
        let ghost before = list@;
        list.push(
            Combination {
                runtime: cell.runtime.clone(),
                op: cell.op.clone(),
                elem_type: cell.elem_type,
            },
        );
        assert(keys_of(list@) =~= keys_of(before).push(
            (cell@.runtime, cell@.op, cell@.elem_type),
        ));
    }
}

/// What has drifted about a component, if anything has.
pub open spec fn drift_text(
    environment: Seq<(Seq<char>, Seq<char>)>,
    name: Seq<char>,
    version: Seq<char>,
) -> Option<Seq<char>> {
    match version_in(environment, name) {
        Some(then) => if then != version {
            Some(name + ": census "@ + then + ", now "@ + version)
        } else {
            None
        },
        None => Some(name + ": not recorded in the census"@),
    }
}

/// What has drifted about the first `n` components.
pub open spec fn drifts_upto(
    environment: Seq<(Seq<char>, Seq<char>)>,
    current: Seq<(Seq<char>, Seq<char>)>,
    n: nat,
) -> Seq<Seq<char>>
    decreases n,
{
    if n == 0 {
        Seq::empty()
    } else {
        let rest = drifts_upto(environment, current, (n - 1) as nat);
        match drift_text(environment, current[n - 1].0, current[n - 1].1) {
            Some(text) => rest.push(text),
            None => rest,
        }
    }
}

/// How many of the first `n` combinations are of a runtime.
pub open spec fn count_for(keys: Seq<Key>, runtime: Seq<char>, n: nat) -> nat
    decreases n,
{
    if n == 0 {
        0
    } else {
        count_for(keys, runtime, (n - 1) as nat) + if keys[n - 1].0 == runtime {
            1nat
        } else {
            0nat
        }
    }
}

/// The runtimes of a sequence of combinations.
pub open spec fn key_runtimes(keys: Seq<Key>) -> Seq<Seq<char>> {
    Seq::new(keys.len(), |i: int| keys[i].0)
}

impl Capabilities {
    /// What a census amounts to.
    pub fn from_census(census: &Census) -> (r: Self)
        ensures
            r@.claimed == distinct(cell_keys(claiming(cells_model(census.cells@)))),
            r@.measured == distinct(cell_keys(cells_model(census.cells@))),
            r@.environment == components_of(census.environment@),
            r@.taken == census.taken@,
            r@.opset == census.opset,
    {
        let ghost all = cells_model(census.cells@);
        let ghost f = |c: CellModel| c.support == Support::Supported;
        let mut claimed: Vec<Combination> = Vec::new();
        let mut measured: Vec<Combination> = Vec::new();
        proof {
            reveal(Seq::filter);
            assert(all.take(0).filter(f) =~= Seq::empty());
            assert(keys_of(measured@) =~= distinct(cell_keys(all.take(0))));
            assert(keys_of(claimed@) =~= distinct(cell_keys(all.take(0).filter(f))));
        }
        let mut i: usize = 0;
        while i < census.cells.len()
            invariant
                i <= census.cells.len(),
                all == cells_model(census.cells@),
                f == (|c: CellModel| c.support == Support::Supported),
                keys_of(measured@) == distinct(cell_keys(all.take(i as int))),
                keys_of(claimed@) == distinct(cell_keys(all.take(i as int).filter(f))),
            decreases census.cells.len() - i,
        {
            let cell: &Cell = &census.cells[i];
            proof {
                let head = all.take(i as int);
                assert(all[i as int] == cell@);
                assert(all.take(i + 1) =~= head.push(cell@));
                head.lemma_filter_push(cell@, f);
                let key = (cell@.runtime, cell@.op, cell@.elem_type);
                assert(cell_keys(head.push(cell@)).drop_last() =~= cell_keys(head));
                assert(cell_keys(head.filter(f).push(cell@)).drop_last() =~= cell_keys(
                    head.filter(f),
                ));
                assert(cell_keys(head.push(cell@)).last() == key);
                assert(cell_keys(head.filter(f).push(cell@)).last() == key);
            }
            insert(&mut measured, cell);
            if cell.support == Support::Supported {
                insert(&mut claimed, cell);
            }
            i += 1;
        }
        assert(all.take(i as int) =~= all);
        Capabilities {
            claimed,
            measured,
            environment: copy_components(&census.environment),
            taken: census.taken.clone(),
            opset: census.opset,
        }
    }

    /// Whether a runtime claims an operator at a type.
    pub fn claims(&self, runtime: &str, op: OpKind, elem: ElemType) -> (r: bool)
        ensures
            r == self@.claim(runtime@, op, elem),
    {
        holds(&self.claimed, runtime, op.onnx_name(), elem)
    }

    /// Whether a combination was measured. Measured and refused is not the same as never measured.
    pub fn was_measured(&self, runtime: &str, op: OpKind, elem: ElemType) -> (r: bool)
        ensures
            r == self@.measured.contains((runtime@, op.text(), elem)),
    {
        holds(&self.measured, runtime, op.onnx_name(), elem)
    }

    /// Whether a failure may be reported as a crash: only where the runtime claims the operator.
    pub fn failure_is_reportable(&self, runtime: &str, op: OpKind, elem: ElemType) -> (r: bool)
        ensures
            r == self@.claim(runtime@, op, elem),
    {
        self.claims(runtime, op, elem)
    }

    /// Whether a runtime produced a result at a type, for some operator.
    fn has_type(&self, runtime: &str, elem: ElemType) -> (r: bool)
        ensures
            r == self@.represents(runtime@, elem),
    {
        let mut i: usize = 0;
        while i < self.claimed.len()
            invariant
                i <= self.claimed.len(),
                forall|k: int|
                    0 <= k < i ==> !((#[trigger] self@.claimed[k]).0 == runtime@
                        && self@.claimed[k].2 == elem),
            decreases self.claimed.len() - i,
        {
            assert(self@.claimed[i as int] == self.claimed@[i as int]@);
            if self.claimed[i].elem_type == elem && same_text(
                self.claimed[i].runtime.as_str(),
                runtime,
            ) {
                return true;
            }
            i += 1;
        }
        false
    }

    /// The types at which a runtime produced a result, for some operator, in order.
    pub fn representable_types(&self, runtime: &str) -> (r: Vec<ElemType>)
        ensures
            r@ == ElemType::ALL@.filter(|t: ElemType| self@.represents(runtime@, t)),
            (r.len() > 0) == self@.claims_anything(runtime@),
    {
        let ghost f = |t: ElemType| self@.represents(runtime@, t);
        let mut out: Vec<ElemType> = Vec::new();
        proof {
            reveal(Seq::filter);
        }
        assert(ElemType::ALL@.take(0).filter(f) =~= Seq::empty());
        let mut k: usize = 0;
        while k < 7
            invariant
                k <= 7,
                ElemType::ALL@.len() == 7,
                f == (|t: ElemType| self@.represents(runtime@, t)),
                out@ == ElemType::ALL@.take(k as int).filter(f),
                (out.len() > 0) == exists|j: int|
                    0 <= j < k && self@.represents(runtime@, #[trigger] ElemType::ALL@[j]),
            decreases 7 - k,
        {
            let t: ElemType = ElemType::ALL[k];
            proof {
                assert(ElemType::ALL@.take(k + 1) =~= ElemType::ALL@.take(k as int).push(t));
                ElemType::ALL@.take(k as int).lemma_filter_push(t, f);
            }
            if self.has_type(runtime, t) {
                assert(self@.represents(runtime@, ElemType::ALL@[k as int]));
                out.push(t);
            }
            k += 1;
        }
        proof {
            assert(ElemType::ALL@.take(7) =~= ElemType::ALL@);
            if self@.claims_anything(runtime@) {
                let i = choose|i: int|
                    0 <= i < self@.claimed.len() && (#[trigger] self@.claimed[i]).0 == runtime@;
                let t = self@.claimed[i].2;
                crate::case::lemma_every_elem_type_is_listed(t);
                assert(self@.represents(runtime@, t));
                let j = choose|j: int| 0 <= j < 7 && ElemType::ALL@[j] == t;
                assert(self@.represents(runtime@, ElemType::ALL@[j]));
            }
        }
        out
    }

    /// Whether a runtime is known to be unable to hold a type. To ask instead whether it can would
    /// excuse everything that a runtime does which nobody measured.
    pub fn known_unable_to_represent(&self, runtime: &str, elem: ElemType) -> (r: bool)
        ensures
            r == self@.cannot_hold(runtime@, elem),
    {
        let types: Vec<ElemType> = self.representable_types(runtime);
        types.len() > 0 && !self.has_type(runtime, elem)
    }

    /// The runtimes that the census covered, in order.
    pub fn runtimes(&self) -> (r: Vec<String>)
        ensures
            texts(r@) == sort_texts(distinct(key_runtimes(self@.measured))),
    {
        let mut names: Vec<String> = Vec::new();
        while names.len() < self.measured.len()
            invariant
                names.len() <= self.measured.len(),
                forall|k: int|
                    0 <= k < names.len() ==> (#[trigger] names@[k])@ == self.measured@[k].runtime@,
            decreases self.measured.len() - names.len(),
        {
            let i: usize = names.len();
            names.push(self.measured[i].runtime.clone());
        }
        assert(texts(names@) =~= key_runtimes(self@.measured));
        name_set(&names)
    }

    /// How many combinations a runtime claims.
    pub fn claim_count(&self, runtime: &str) -> (r: usize)
        ensures
            r == count_for(self@.claimed, runtime@, self@.claimed.len()),
    {
        let mut count: usize = 0;
        let mut i: usize = 0;
        while i < self.claimed.len()
            invariant
                i <= self.claimed.len(),
                count == count_for(self@.claimed, runtime@, i as nat),
                count <= i,
            decreases self.claimed.len() - i,
        {
            assert(self@.claimed[i as int] == self.claimed@[i as int]@);
            if same_text(self.claimed[i].runtime.as_str(), runtime) {
                count += 1;
            }
            i += 1;
        }
        count
    }

    /// What differs between the environment of the census and the one given. A claim is one about
    /// particular versions.
    pub fn is_stale_for(&self, current: &Vec<(String, String)>) -> (r: Vec<String>)
        ensures
            texts(r@) == drifts_upto(
                self@.environment,
                components_of(current@),
                current@.len(),
            ),
    {
        let ghost now = components_of(current@);
        let mut out: Vec<String> = Vec::new();
        let mut i: usize = 0;
        assert(texts(out@) =~= drifts_upto(self@.environment, now, 0));
        while i < current.len()
            invariant
                i <= current.len(),
                now == components_of(current@),
                texts(out@) == drifts_upto(self@.environment, now, i as nat),
            decreases current.len() - i,
        {
            let name: &String = &current[i].0;
            let version: &String = &current[i].1;
            assert(now[i as int] == (name@, version@));
            let ghost before = out@;
            match version_of(&self.environment, name.as_str()) {
                Some(then) => {
                    if !same_text(then.as_str(), version.as_str()) {
                        let mut text: String = name.clone();
                        text.append(": census ");
                        text.append(then.as_str());
                        text.append(", now ");
                        text.append(version.as_str());
                        out.push(text);
                        assert(texts(out@) =~= texts(before).push(text@));
                    }
                },
                None => {
                    let mut text: String = name.clone();
                    text.append(": not recorded in the census");
                    out.push(text);
                    assert(texts(out@) =~= texts(before).push(text@));
                },
            }
            i += 1;
        }
        out
    }

    /// When the census was taken.
    pub fn taken(&self) -> (r: &str)
        ensures
            r@ == self@.taken,
    {
        self.taken.as_str()
    }

    pub fn opset(&self) -> (r: i64)
        ensures
            r == self@.opset,
    {
        self.opset
    }
}

// ---- reading an outcome ----

/// The types that a case needs and a runtime is known to be unable to hold, in order.
pub open spec fn missing_types(caps: CapabilitiesModel, runtime: Seq<char>, c: CaseModel) -> Seq<
    ElemType,
> {
    ElemType::ALL@.filter(|t: ElemType| requires_type(c, t)).filter(
        |t: ElemType| caps.cannot_hold(runtime, t),
    )
}

/// The names of types.
pub open spec fn type_names(types: Seq<ElemType>) -> Seq<Seq<char>> {
    Seq::new(types.len(), |i: int| types[i].text())
}

/// Why a runtime is not asked.
pub open spec fn gap_text(
    caps: CapabilitiesModel,
    runtime: Seq<char>,
    c: CaseModel,
) -> Seq<char> {
    runtime + " cannot represent ["@ + join_text(
        type_names(missing_types(caps, runtime, c)),
        ", "@,
    ) + "], which "@ + c.op.text() + " requires (census "@ + caps.taken + ")"@
}

/// Why a refusal is taken for a gap.
pub open spec fn refusal_text(
    caps: CapabilitiesModel,
    runtime: Seq<char>,
    c: CaseModel,
    detail: Seq<char>,
) -> Seq<char> {
    runtime + " does not implement "@ + c.op.text() + " at "@ + data_elem_of(c).text()
        + " (census "@ + caps.taken + "): "@ + first_line(detail)
}

/// What is made of an outcome: a refusal of an operator that the runtime does not claim is a gap,
/// and everything else stays what it is.
pub open spec fn reading(
    caps: CapabilitiesModel,
    runtime: Seq<char>,
    c: CaseModel,
    o: OutcomeModel,
) -> OutcomeModel {
    match o {
        OutcomeModel::Rejected(detail) => if caps.claim(runtime, c.op, data_elem_of(c)) {
            o
        } else {
            OutcomeModel::Unsupported(refusal_text(caps, runtime, c, detail))
        },
        _ => o,
    }
}

impl Capabilities {
    /// The gap that keeps a runtime from being asked about a case, if there is one. A type that it
    /// cannot hold makes the case one that it cannot be wrong about, and it would not even fail: it
    /// would answer in another type.
    pub fn gap(&self, runtime: &str, case: &OnnxCase) -> (r: Option<OnnxOutcome>)
        requires
            output_fits(case@),
        ensures
            r is Some <==> missing_types(self@, runtime@, case@).len() > 0,
            r matches Some(o) ==> o@ == OutcomeModel::Unsupported(
                gap_text(self@, runtime@, case@),
            ),
    {
        let needed: Vec<ElemType> = required_elem_types(case);
        let ghost f = |t: ElemType| self@.cannot_hold(runtime@, t);
        let ghost types = ElemType::ALL@.filter(|t: ElemType| requires_type(case@, t));
        let ghost mut missing: Seq<ElemType> = Seq::empty();
        let mut names: Vec<String> = Vec::new();
        proof {
            reveal(Seq::filter);
            assert(types.take(0).filter(f) =~= Seq::empty());
            assert(texts(names@) =~= type_names(missing));
        }
        let mut i: usize = 0;
        while i < needed.len()
            invariant
                i <= needed.len(),
                needed@ == types,
                f == (|t: ElemType| self@.cannot_hold(runtime@, t)),
                missing == types.take(i as int).filter(f),
                texts(names@) == type_names(missing),
            decreases needed.len() - i,
        {
            let t: ElemType = needed[i];
            proof {
                assert(types.take(i + 1) =~= types.take(i as int).push(t));
                types.take(i as int).lemma_filter_push(t, f);
            }
            if self.known_unable_to_represent(runtime, t) {
                let ghost before = names@;
                names.push(t.name().to_owned());
                proof {
                    missing = missing.push(t);
                    assert(texts(names@) =~= texts(before).push(t.text()));
                    assert(texts(names@) =~= type_names(missing));
                }
            }
            i += 1;
        }
        proof {
            assert(types.take(i as int) =~= types);
            assert(texts(names@).len() == names@.len());
        }
        if names.len() == 0 {
            return None;
        }
        let mut reason: String = runtime.to_owned();
        reason.append(" cannot represent [");
        reason.append(join(&names, ", ").as_str());
        reason.append("], which ");
        reason.append(case.op.onnx_name());
        reason.append(" requires (census ");
        reason.append(self.taken.as_str());
        reason.append(")");
        Some(OnnxOutcome::Unsupported { reason })
    }

    /// What is made of an outcome. It can say that a refusal was a gap, and never that a crash was
    /// not one.
    pub fn read(&self, runtime: &str, case: &OnnxCase, outcome: OnnxOutcome) -> (r: OnnxOutcome)
        ensures
            r@ == reading(self@, runtime@, case@, outcome@),
    {
        match outcome {
            OnnxOutcome::Rejected { detail } => {
                let elem: ElemType = data_elem_type(case);
                if self.claims(runtime, case.op, elem) {
                    return OnnxOutcome::Rejected { detail };
                }
                let mut reason: String = runtime.to_owned();
                reason.append(" does not implement ");
                reason.append(case.op.onnx_name());
                reason.append(" at ");
                reason.append(elem.name());
                reason.append(" (census ");
                reason.append(self.taken.as_str());
                reason.append("): ");
                reason.append(first_line_of(detail.as_str()).as_str());
                OnnxOutcome::Unsupported { reason }
            },
            other => other,
        }
    }
}

/// A runtime together with what it is known to claim.
///
/// A runtime reports an operator that it does not implement in words, so a refusal alone does not
/// say whether it is a gap. What was measured does.
#[derive(Debug)]
pub struct WithCapabilities<'a, I> {
    inner: I,
    capabilities: &'a Capabilities,
}

impl<'a, I> WithCapabilities<'a, I> {
    /// The runtime.
    pub closed spec fn runtime(self) -> I {
        self.inner
    }

    /// What it is known to claim.
    pub closed spec fn known(self) -> CapabilitiesModel {
        self.capabilities@
    }

    pub fn new(inner: I, capabilities: &'a Capabilities) -> (r: Self)
        ensures
            r.runtime() == inner,
            r.known() == capabilities@,
    {
        WithCapabilities { inner, capabilities }
    }

    /// The runtime.
    pub fn inner(&self) -> (r: &I)
        ensures
            *r == self.runtime(),
    {
        &self.inner
    }

    /// What the runtime makes of a case. It is not asked where it cannot hold a type that the case
    /// needs, and its outcome is read with what it claims in mind.
    pub fn run<F: Fn(&I, &OnnxCase) -> OnnxOutcome>(
        &self,
        name: &str,
        case: &OnnxCase,
        ask: F,
    ) -> (r: OnnxOutcome)
        requires
            output_fits(case@),
            missing_types(self.known(), name@, case@).len() == 0 ==> call_requires(
                ask,
                (&self.runtime(), case),
            ),
        ensures
            if missing_types(self.known(), name@, case@).len() > 0 {
                r@ == OutcomeModel::Unsupported(gap_text(self.known(), name@, case@))
            } else {
                exists|o: OnnxOutcome|
                    call_ensures(ask, (&self.runtime(), case), o) && r@ == #[trigger] reading(
                        self.known(),
                        name@,
                        case@,
                        o@,
                    )
            },
    {
        match self.capabilities.gap(name, case) {
            Some(gap) => gap,
            None => {
                let outcome: OnnxOutcome = ask(&self.inner, case);
                self.capabilities.read(name, case, outcome)
            },
        }
    }
}

// ---- laws ----

/// A crash or a timeout is never excused, whatever a runtime claims.
pub proof fn lemma_a_crash_is_never_excused(
    caps: CapabilitiesModel,
    runtime: Seq<char>,
    c: CaseModel,
    o: OutcomeModel,
)
    requires
        o is Crashed || o is TimedOut || o is Produced,
    ensures
        reading(caps, runtime, c, o) == o,
{
}

/// Of a runtime that a census never covered nothing is known: it claims nothing, so its refusals
/// are gaps, and it is never kept from being asked.
pub proof fn lemma_an_unmeasured_runtime_is_always_asked(
    caps: CapabilitiesModel,
    runtime: Seq<char>,
    c: CaseModel,
    op: OpKind,
    elem: ElemType,
    detail: Seq<char>,
)
    requires
        !caps.claims_anything(runtime),
    ensures
        !caps.cannot_hold(runtime, elem),
        !caps.claim(runtime, op, elem),
        missing_types(caps, runtime, c).len() == 0,
        reading(caps, runtime, c, OutcomeModel::Rejected(detail)) is Unsupported,
{
    let needed = ElemType::ALL@.filter(|t: ElemType| requires_type(c, t));
    let f = |t: ElemType| caps.cannot_hold(runtime, t);
    if missing_types(caps, runtime, c).len() > 0 {
        needed.lemma_filter_pred(f, 0);
    }
    assert forall|o: OpKind, t: ElemType| !#[trigger] caps.claim(runtime, o, t) by {
        if caps.claim(runtime, o, t) {
            let i = choose|i: int|
                0 <= i < caps.claimed.len() && caps.claimed[i] == (runtime, o.text(), t);
            assert(caps.claimed[i].0 == runtime);
        }
    }
}

/// Whatever is claimed was measured.
pub proof fn lemma_claims_were_measured(cells: Seq<CellModel>, key: Key)
    requires
        distinct(cell_keys(claiming(cells))).contains(key),
    ensures
        distinct(cell_keys(cells)).contains(key),
{
    let f = |c: CellModel| c.support == Support::Supported;
    lemma_distinct_keeps_the_members(cell_keys(claiming(cells)), key);
    lemma_distinct_keeps_the_members(cell_keys(cells), key);
    let i = choose|i: int|
        0 <= i < cell_keys(claiming(cells)).len() && cell_keys(claiming(cells))[i] == key;
    let cell = claiming(cells)[i];
    assert(cells.filter(f).contains(cell));
    cells.lemma_filter_contains_rev(f, cell);
    let j = choose|j: int| 0 <= j < cells.len() && cells[j] == cell;
    assert(cell_keys(cells)[j] == key);
}

} // verus!
