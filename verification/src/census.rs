//! Which runtime supports which operator, at which element type.
//!
//! Documentation says what was intended, so every cell of the matrix is measured: a minimal legal
//! model is built and tried. Without the matrix one could not tell a runtime that does not
//! implement an operator from one that does and crashed.

use vstd::arithmetic::div_mod::lemma_fundamental_div_mod_converse;
use vstd::prelude::*;

use crate::case::{CaseModel, ElemType, OnnxCase, OpKind};
use crate::ops::{admitted_pairs, candidates, lemma_candidates_are_the_admitted_pairs, op_spec};
use crate::ops::{probe, probe_model, Tier};
use crate::order::{distinct, name_set, sort_texts};
use crate::outcome::{OnnxOutcome, OutcomeModel};
use crate::text::{clip, decimal, decimal_text, last_line, last_line_clipped, same_text, texts};

verus! {

// ---- cells ----

/// What a runtime did with a probe. A crash on a legal minimal model is kept apart from a refusal.
#[derive(Debug, Clone, Copy, PartialEq, Eq, PartialOrd, Ord, Structural)]
pub enum Support {
    /// It produced a result.
    Supported,
    /// It says that it does not implement this.
    Unsupported,
    /// It returned an error. That may be a refusal or a defect.
    Rejected,
    /// It crashed or hung.
    Crashed,
}

/// Every kind of support, in order.
pub const SUPPORTS: [Support; 4] = [
    Support::Supported,
    Support::Unsupported,
    Support::Rejected,
    Support::Crashed,
];

impl Support {
    /// What an outcome says about support.
    pub open spec fn of(o: OutcomeModel) -> Support {
        match o {
            OutcomeModel::Produced(_) => Support::Supported,
            OutcomeModel::Unsupported(_) => Support::Unsupported,
            OutcomeModel::Rejected(_) => Support::Rejected,
            OutcomeModel::Crashed(_) | OutcomeModel::TimedOut(_) => Support::Crashed,
        }
    }

    pub open spec fn mark(self) -> char {
        match self {
            Support::Supported => '+',
            Support::Unsupported => '-',
            Support::Rejected => '?',
            Support::Crashed => '!',
        }
    }

    /// What an outcome says about support.
    pub fn from(outcome: &OnnxOutcome) -> (r: Self)
        ensures
            r == Support::of(outcome@),
    {
        match outcome {
            OnnxOutcome::Produced(_) => Support::Supported,
            OnnxOutcome::Unsupported { .. } => Support::Unsupported,
            OnnxOutcome::Rejected { .. } => Support::Rejected,
            OnnxOutcome::Crashed { .. } | OnnxOutcome::TimedOut { .. } => Support::Crashed,
        }
    }

    /// A one-character mark.
    pub fn symbol(self) -> (r: char)
        ensures
            r == self.mark(),
    {
        match self {
            Support::Supported => '+',
            Support::Unsupported => '-',
            Support::Rejected => '?',
            Support::Crashed => '!',
        }
    }
}

/// No two kinds of support share a mark.
pub proof fn lemma_marks_tell_support_apart(a: Support, b: Support)
    requires
        a.mark() == b.mark(),
    ensures
        a == b,
{
}

/// One measured cell.
#[derive(Debug)]
pub struct Cell {
    pub op: String,
    pub elem_type: ElemType,
    pub runtime: String,
    pub support: Support,
    /// The runtime's own words, where it did not produce a result.
    pub detail: Option<String>,
}

/// What a [`Cell`] holds.
#[verifier::ext_equal]
pub struct CellModel {
    pub op: Seq<char>,
    pub elem_type: ElemType,
    pub runtime: Seq<char>,
    pub support: Support,
    pub detail: Option<Seq<char>>,
}

impl View for Cell {
    type V = CellModel;

    open spec fn view(&self) -> CellModel {
        CellModel {
            op: self.op@,
            elem_type: self.elem_type,
            runtime: self.runtime@,
            support: self.support,
            detail: match self.detail {
                Some(d) => Some(d@),
                None => None,
            },
        }
    }
}

/// The models of a sequence of cells.
pub open spec fn cells_model(v: Seq<Cell>) -> Seq<CellModel> {
    Seq::new(v.len(), |i: int| v[i]@)
}

/// The words that go with an outcome: the last line that says something, cut to size.
pub open spec fn detail_of(o: OutcomeModel) -> Option<Seq<char>> {
    match o {
        OutcomeModel::Produced(_) => None,
        OutcomeModel::Rejected(detail) | OutcomeModel::Crashed(detail) => Some(
            clip(last_line(detail), 160),
        ),
        OutcomeModel::Unsupported(reason) => Some(clip(last_line(reason), 160)),
        OutcomeModel::TimedOut(after_ms) => Some(decimal_text(after_ms as nat) + "ms"@),
    }
}

/// The cell that an outcome makes.
pub open spec fn cell_of(
    op: OpKind,
    elem: ElemType,
    runtime: Seq<char>,
    o: OutcomeModel,
) -> CellModel {
    CellModel {
        op: op.text(),
        elem_type: elem,
        runtime,
        support: Support::of(o),
        detail: detail_of(o),
    }
}

/// The last line that says something, cut to size.
fn first_line(text: &str) -> (r: String)
    ensures
        r@ == clip(last_line(text@), 160),
{
    last_line_clipped(text, 160)
}

/// The cell that an outcome makes.
pub fn measure_cell(op: OpKind, elem: ElemType, runtime: &str, outcome: &OnnxOutcome) -> (r: Cell)
    ensures
        r@ == cell_of(op, elem, runtime@, outcome@),
{
    let detail: Option<String> = match outcome {
        OnnxOutcome::Produced(_) => None,
        OnnxOutcome::Rejected { detail } => Some(first_line(detail.as_str())),
        OnnxOutcome::Crashed { detail } => Some(first_line(detail.as_str())),
        OnnxOutcome::Unsupported { reason } => Some(first_line(reason.as_str())),
        OnnxOutcome::TimedOut { after_ms } => {
            let mut text: String = decimal(*after_ms);
            text.append("ms");
            Some(text)
        },
    };
    Cell {
        op: op.onnx_name().to_owned(),
        elem_type: elem,
        runtime: runtime.to_owned(),
        support: Support::from(outcome),
        detail,
    }
}

// ---- the matrix ----

/// The whole matrix, and what it was taken with. It is a claim about those versions on that day.
#[derive(Debug)]
pub struct Census {
    pub taken: String,
    pub opset: i64,
    pub environment: Vec<(String, String)>,
    pub runtimes: Vec<String>,
    pub cells: Vec<Cell>,
}

/// Whether a cell says that an operator is supported at a type.
pub open spec fn supports(op: OpKind, elem: ElemType) -> spec_fn(CellModel) -> bool {
    |c: CellModel| c.op == op.text() && c.elem_type == elem && c.support == Support::Supported
}

/// The runtimes of the cells that say an operator is supported at a type.
pub open spec fn supporters(cells: Seq<CellModel>, op: OpKind, elem: ElemType) -> Seq<Seq<char>> {
    let kept = cells.filter(supports(op, elem));
    Seq::new(kept.len(), |i: int| kept[i].runtime)
}

/// Whether enough participants support an operator at one type at least.
pub open spec fn supported_by(cells: Seq<CellModel>, op: OpKind, n: nat) -> bool {
    exists|k: int|
        0 <= k < 7 && supporters(cells, op, #[trigger] ElemType::ALL@[k]).len() >= n
}

/// How many of the first `n` cells are of a runtime and a kind of support.
pub open spec fn tally_upto(
    cells: Seq<CellModel>,
    runtime: Seq<char>,
    support: Support,
    n: nat,
) -> nat
    decreases n,
{
    if n == 0 {
        0
    } else {
        tally_upto(cells, runtime, support, (n - 1) as nat) + if cells[n - 1].runtime == runtime
            && cells[n - 1].support == support {
            1nat
        } else {
            0nat
        }
    }
}

/// How often a runtime shows each of the first `n` kinds of support, kinds that do not occur left
/// out.
pub open spec fn counts_upto(cells: Seq<CellModel>, runtime: Seq<char>, n: nat) -> Seq<
    (Support, usize),
>
    decreases n,
{
    if n == 0 {
        Seq::empty()
    } else {
        let rest = counts_upto(cells, runtime, (n - 1) as nat);
        let support = SUPPORTS[n - 1];
        let count = tally_upto(cells, runtime, support, cells.len());
        if count == 0 {
            rest
        } else {
            rest.push((support, count as usize))
        }
    }
}

/// The runtimes of a sequence of cells.
pub open spec fn runtimes_of(cells: Seq<CellModel>) -> Seq<Seq<char>> {
    Seq::new(cells.len(), |i: int| cells[i].runtime)
}

impl Census {
    /// The runtimes that produced a result for an operator at a type.
    pub fn supporting(&self, op: OpKind, elem: ElemType) -> (r: Vec<&str>)
        ensures
            r.len() == supporters(cells_model(self.cells@), op, elem).len(),
            forall|i: int|
                0 <= i < r.len() ==> (#[trigger] r@[i])@ == supporters(
                    cells_model(self.cells@),
                    op,
                    elem,
                )[i],
    {
        let ghost all = cells_model(self.cells@);
        let ghost f = supports(op, elem);
        let mut out: Vec<&str> = Vec::new();
        proof {
            reveal(Seq::filter);
            assert(all.take(0).filter(f) =~= Seq::empty());
        }
        let mut i: usize = 0;
        while i < self.cells.len()
            invariant
                i <= self.cells.len(),
                all == cells_model(self.cells@),
                f == supports(op, elem),
                out.len() == all.take(i as int).filter(f).len(),
                forall|k: int|
                    0 <= k < out.len() ==> (#[trigger] out@[k])@ == all.take(i as int).filter(
                        f,
                    )[k].runtime,
            decreases self.cells.len() - i,
        {
            let cell: &Cell = &self.cells[i];
            proof {
                assert(all[i as int] == cell@);
                assert(all.take(i + 1) =~= all.take(i as int).push(cell@));
                all.take(i as int).lemma_filter_push(cell@, f);
            }
            if cell.elem_type == elem && cell.support == Support::Supported && same_text(
                cell.op.as_str(),
                op.onnx_name(),
            ) {
                out.push(cell.runtime.as_str());
            }
            i += 1;
        }
        assert(all.take(i as int) =~= all);
        out
    }

    /// The operators that at least `n` participants support at one type at least.
    pub fn operators_supported_by(&self, n: usize) -> (r: Vec<OpKind>)
        ensures
            r@ == OpKind::ALL@.filter(
                |op: OpKind| supported_by(cells_model(self.cells@), op, n as nat),
            ),
    {
        let ghost all = cells_model(self.cells@);
        let ghost f = |op: OpKind| supported_by(all, op, n as nat);
        let mut out: Vec<OpKind> = Vec::new();
        proof {
            reveal(Seq::filter);
        }
        assert(OpKind::ALL@.take(0).filter(f) =~= Seq::empty());
        let mut k: usize = 0;
        while k < 37
            invariant
                k <= 37,
                OpKind::ALL@.len() == 37,
                ElemType::ALL@.len() == 7,
                all == cells_model(self.cells@),
                f == (|op: OpKind| supported_by(all, op, n as nat)),
                out@ == OpKind::ALL@.take(k as int).filter(f),
            decreases 37 - k,
        {
            let op: OpKind = OpKind::ALL[k];
            let mut found: bool = false;
            let mut e: usize = 0;
            while e < 7
                invariant
                    e <= 7,
                    ElemType::ALL@.len() == 7,
                    all == cells_model(self.cells@),
                    found == exists|j: int|
                        0 <= j < e && supporters(all, op, #[trigger] ElemType::ALL@[j]).len() >= n,
                decreases 7 - e,
            {
                let elem: ElemType = ElemType::ALL[e];
                if self.supporting(op, elem).len() >= n {
                    assert(supporters(all, op, ElemType::ALL@[e as int]).len() >= n);
                    found = true;
                }
                e += 1;
            }
            proof {
                assert(found == f(op));
                assert(OpKind::ALL@.take(k + 1) =~= OpKind::ALL@.take(k as int).push(op));
                OpKind::ALL@.take(k as int).lemma_filter_push(op, f);
            }
            if found {
                out.push(op);
            }
            k += 1;
        }
        assert(OpKind::ALL@.take(37) =~= OpKind::ALL@);
        out
    }

    /// The cells in which a runtime crashed.
    pub fn crashes(&self) -> (r: Vec<&Cell>)
        ensures
            r.len() == cells_model(self.cells@).filter(
                |c: CellModel| c.support == Support::Crashed,
            ).len(),
            forall|i: int|
                0 <= i < r.len() ==> (#[trigger] r@[i])@ == cells_model(self.cells@).filter(
                    |c: CellModel| c.support == Support::Crashed,
                )[i],
    {
        let ghost all = cells_model(self.cells@);
        let ghost f = |c: CellModel| c.support == Support::Crashed;
        let mut out: Vec<&Cell> = Vec::new();
        proof {
            reveal(Seq::filter);
            assert(all.take(0).filter(f) =~= Seq::empty());
        }
        let mut i: usize = 0;
        while i < self.cells.len()
            invariant
                i <= self.cells.len(),
                all == cells_model(self.cells@),
                f == (|c: CellModel| c.support == Support::Crashed),
                out.len() == all.take(i as int).filter(f).len(),
                forall|k: int|
                    0 <= k < out.len() ==> (#[trigger] out@[k])@ == all.take(i as int).filter(f)[k],
            decreases self.cells.len() - i,
        {
            let cell: &Cell = &self.cells[i];
            proof {
                assert(all[i as int] == cell@);
                assert(all.take(i + 1) =~= all.take(i as int).push(cell@));
                all.take(i as int).lemma_filter_push(cell@, f);
            }
            if cell.support == Support::Crashed {
                out.push(cell);
            }
            i += 1;
        }
        assert(all.take(i as int) =~= all);
        out
    }

    /// How often each runtime shows each kind of support.
    pub fn tally(&self) -> (r: Vec<(String, Vec<(Support, usize)>)>)
        ensures
            r.len() == sort_texts(distinct(runtimes_of(cells_model(self.cells@)))).len(),
            forall|i: int|
                0 <= i < r.len() ==> (#[trigger] r@[i]).0@ == sort_texts(
                    distinct(runtimes_of(cells_model(self.cells@))),
                )[i] && r@[i].1@ == counts_upto(cells_model(self.cells@), r@[i].0@, 4),
    {
        let ghost all = cells_model(self.cells@);
        let mut names: Vec<String> = Vec::new();
        let mut i: usize = 0;
        while i < self.cells.len()
            invariant
                i <= self.cells.len(),
                names.len() == i,
                forall|k: int| 0 <= k < i ==> (#[trigger] names@[k])@ == self.cells@[k].runtime@,
            decreases self.cells.len() - i,
        {
            names.push(self.cells[i].runtime.clone());
            i += 1;
        }
        assert(texts(names@) =~= runtimes_of(all));
        let unique: Vec<String> = name_set(&names);
        let mut out: Vec<(String, Vec<(Support, usize)>)> = Vec::new();
        let mut u: usize = 0;
        while u < unique.len()
            invariant
                u <= unique.len(),
                out.len() == u,
                all == cells_model(self.cells@),
                forall|k: int|
                    0 <= k < u ==> (#[trigger] out@[k]).0@ == unique@[k]@ && out@[k].1@
                        == counts_upto(all, unique@[k]@, 4),
            decreases unique.len() - u,
        {
            let counts: Vec<(Support, usize)> = self.counts(unique[u].as_str());
            out.push((unique[u].clone(), counts));
            u += 1;
        }
        proof {
            let goal = sort_texts(distinct(runtimes_of(all)));
            assert(texts(unique@) == goal);
            assert(texts(unique@).len() == unique@.len());
            assert forall|i: int| 0 <= i < out.len() implies (#[trigger] out@[i]).0@
                == goal[i] by {
                assert(texts(unique@)[i] == unique@[i]@);
            }
        }
        out
    }

    /// How often a runtime shows each kind of support.
    fn counts(&self, runtime: &str) -> (r: Vec<(Support, usize)>)
        ensures
            r@ == counts_upto(cells_model(self.cells@), runtime@, 4),
    {
        let ghost all = cells_model(self.cells@);
        let mut out: Vec<(Support, usize)> = Vec::new();
        let mut k: usize = 0;
        while k < 4
            invariant
                k <= 4,
                SUPPORTS@.len() == 4,
                all == cells_model(self.cells@),
                out@ == counts_upto(all, runtime@, k as nat),
            decreases 4 - k,
        {
            let support: Support = SUPPORTS[k];
            let mut count: usize = 0;
            let mut i: usize = 0;
            while i < self.cells.len()
                invariant
                    i <= self.cells.len(),
                    all == cells_model(self.cells@),
                    count == tally_upto(all, runtime@, support, i as nat),
                    count <= i,
                decreases self.cells.len() - i,
            {
                assert(all[i as int] == self.cells@[i as int]@);
                if self.cells[i].support == support && same_text(
                    self.cells[i].runtime.as_str(),
                    runtime,
                ) {
                    count += 1;
                }
                i += 1;
            }
            if count > 0 {
                out.push((support, count));
            }
            k += 1;
        }
        out
    }

    /// The census that a list of outcomes makes: one for each probe and each runtime, probe by
    /// probe. Nothing is dropped.
    pub fn assemble(
        taken: String,
        opset: i64,
        environment: Vec<(String, String)>,
        runtimes: Vec<String>,
        outcomes: &Vec<OnnxOutcome>,
    ) -> (r: Self)
        requires
            outcomes.len() == admitted_pairs(opset, 259).len() * runtimes.len(),
        ensures
            r.taken == taken && r.opset == opset && r.environment == environment && r.runtimes
                == runtimes,
            assembled(r, runtimes@, outcomes@),
    {
        let pairs: Vec<(OpKind, ElemType)> = candidates(opset);
        let width: usize = runtimes.len();
        let mut cells: Vec<Cell> = Vec::new();
        while cells.len() < outcomes.len()
            invariant
                cells.len() <= outcomes.len(),
                outcomes.len() == pairs@.len() * width,
                width == runtimes.len(),
                pairs@ == admitted_pairs(opset, 259),
                forall|k: int|
                    0 <= k < cells.len() ==> (#[trigger] cells@[k])@ == cell_of(
                        pairs@[k / (width as int)].0,
                        pairs@[k / (width as int)].1,
                        runtimes@[k % (width as int)]@,
                        outcomes@[k]@,
                    ),
            decreases outcomes.len() - cells.len(),
        {
            let k: usize = cells.len();
            proof {
                assert(width > 0) by (nonlinear_arith)
                    requires
                        k < pairs@.len() * width,
                        k >= 0,
                ;
                assert((k as int) / (width as int) < pairs@.len()) by (nonlinear_arith)
                    requires
                        0 <= k < pairs@.len() * width,
                        width > 0,
                ;
            }
            let (op, elem): (OpKind, ElemType) = pairs[k / width];
            cells.push(measure_cell(op, elem, runtimes[k % width].as_str(), &outcomes[k]));
        }
        Census { taken, opset, environment, runtimes, cells }
    }
}

/// Whether an outcome is what asking about the `k`-th cell gave: the runtimes are asked about one
/// probe after another.
pub open spec fn asked<F: Fn(usize, &OnnxCase) -> OnnxOutcome>(
    ask: F,
    opset: i64,
    width: nat,
    k: int,
    outcome: OnnxOutcome,
) -> bool {
    let pair = admitted_pairs(opset, 259)[k / (width as int)];
    exists|case: OnnxCase|
        case@ == probe_model(pair.0, pair.1, opset, 2) && #[trigger] call_ensures(
            ask,
            ((k % (width as int)) as usize, &case),
            outcome,
        )
}

/// Whether a case is the probe of a pair that an opset version admits.
pub open spec fn is_probe(c: CaseModel, opset: i64) -> bool {
    exists|p: int|
        {
            &&& 0 <= p < admitted_pairs(opset, 259).len()
            &&& c == probe_model(
                (#[trigger] admitted_pairs(opset, 259)[p]).0,
                admitted_pairs(opset, 259)[p].1,
                opset,
                2,
            )
        }
}

/// Whether a census is what a list of outcomes makes.
pub open spec fn assembled(r: Census, runtimes: Seq<String>, outcomes: Seq<OnnxOutcome>) -> bool {
    let pairs = admitted_pairs(r.opset, 259);
    &&& outcomes.len() == pairs.len() * runtimes.len()
    &&& r.cells.len() == outcomes.len()
    &&& forall|k: int|
        0 <= k < r.cells.len() ==> (#[trigger] r.cells@[k])@ == cell_of(
            pairs[k / (runtimes.len() as int)].0,
            pairs[k / (runtimes.len() as int)].1,
            runtimes[k % (runtimes.len() as int)]@,
            outcomes[k]@,
        )
}

/// Takes a census: asks every runtime, by its position, about a probe of every operator at every
/// element type.
pub fn take<F: Fn(usize, &OnnxCase) -> OnnxOutcome>(
    taken: String,
    opset: i64,
    environment: Vec<(String, String)>,
    runtimes: Vec<String>,
    ask: F,
) -> (r: Census)
    requires
        forall|i: usize, case: &OnnxCase|
            i < runtimes@.len() && is_probe(case@, opset) ==> #[trigger] call_requires(
                ask,
                (i, case),
            ),
    ensures
        r.taken == taken && r.opset == opset && r.environment == environment && r.runtimes
            == runtimes,
        exists|outcomes: Seq<OnnxOutcome>|
            #[trigger] assembled(r, runtimes@, outcomes) && forall|k: int|
                0 <= k < outcomes.len() ==> asked(
                    ask,
                    opset,
                    runtimes@.len(),
                    k,
                    #[trigger] outcomes[k],
                ),
{
    let pairs: Vec<(OpKind, ElemType)> = candidates(opset);
    let width: usize = runtimes.len();
    let mut outcomes: Vec<OnnxOutcome> = Vec::new();
    let mut p: usize = 0;
    while p < pairs.len()
        invariant
            p <= pairs.len(),
            pairs@ == admitted_pairs(opset, 259),
            width == runtimes.len(),
            outcomes.len() == p * width,
            forall|i: usize, case: &OnnxCase|
                i < runtimes@.len() && is_probe(case@, opset) ==> #[trigger] call_requires(
                    ask,
                    (i, case),
                ),
            forall|k: int|
                0 <= k < outcomes.len() ==> asked(
                    ask,
                    opset,
                    width as nat,
                    k,
                    #[trigger] outcomes@[k],
                ),
        decreases pairs.len() - p,
    {
        proof {
            lemma_candidates_are_the_admitted_pairs(opset, pairs@[p as int].0, pairs@[p as int].1);
        }
        assert(pairs@.contains(pairs@[p as int]));
        if let Some(case) = probe(pairs[p].0, pairs[p].1, opset) {
            let mut i: usize = 0;
            while i < width
                invariant
                    p < pairs.len(),
                    i <= width,
                    pairs@ == admitted_pairs(opset, 259),
                    width == runtimes.len(),
                    outcomes.len() == p * width + i,
                    case@ == probe_model(pairs@[p as int].0, pairs@[p as int].1, opset, 2),
                    forall|i: usize, case: &OnnxCase|
                        i < runtimes@.len() && is_probe(case@, opset) ==> #[trigger] call_requires(
                            ask,
                            (i, case),
                        ),
                    forall|k: int|
                        0 <= k < outcomes.len() ==> asked(
                            ask,
                            opset,
                            width as nat,
                            k,
                            #[trigger] outcomes@[k],
                        ),
                decreases width - i,
            {
                assert(admitted_pairs(opset, 259)[p as int] == pairs@[p as int]);
                assert(is_probe(case@, opset));
                let outcome: OnnxOutcome = ask(i, &case);
                proof {
                    let k: int = outcomes@.len() as int;
                    lemma_fundamental_div_mod_converse(k, width as int, p as int, i as int);
                    assert(call_ensures(ask, ((k % (width as int)) as usize, &case), outcome));
                    assert(asked(ask, opset, width as nat, k, outcome));
                }
                outcomes.push(outcome);
                i += 1;
            }
        }
        assert((p + 1) * width == p * width + width) by (nonlinear_arith);
        p += 1;
    }
    Census::assemble(taken, opset, environment, runtimes, &outcomes)
}

// ---- the bar ----

/// The operators that must be supported by enough participants.
pub const MIN_OPERATORS: usize = 20;

/// The operators among them that must be compared exactly.
pub const MIN_TIER_A: usize = 10;

/// The operators among them whose output must depend on values.
pub const MIN_VALUE_DEPENDENT: usize = 8;

/// The participants that it takes for an operator to count.
pub const MIN_PARTICIPANTS: usize = 3;

/// What is measured against the bar.
#[derive(Debug, Clone, Copy, PartialEq, Eq, Structural)]
pub struct GoNoGo {
    pub operators_3plus: usize,
    pub tier_a: usize,
    pub value_dependent: usize,
}

/// The operators that count.
pub open spec fn qualifying(cells: Seq<CellModel>) -> Seq<OpKind> {
    OpKind::ALL@.filter(|op: OpKind| supported_by(cells, op, MIN_PARTICIPANTS as nat))
}

impl GoNoGo {
    /// What a census amounts to.
    pub fn measure(census: &Census) -> (r: Self)
        ensures
            ({
                let q = qualifying(cells_model(census.cells@));
                &&& r.operators_3plus == q.len()
                &&& r.tier_a == q.filter(|op: OpKind| op.tier() == Tier::A).len()
                &&& r.value_dependent == q.filter(|op: OpKind| op.value_dependent()).len()
            }),
    {
        let list: Vec<OpKind> = census.operators_supported_by(MIN_PARTICIPANTS);
        let ghost a = |op: OpKind| op.tier() == Tier::A;
        let ghost v = |op: OpKind| op.value_dependent();
        let mut tier_a: usize = 0;
        let mut value_dependent: usize = 0;
        proof {
            reveal(Seq::filter);
            assert(list@.take(0) =~= Seq::empty());
        }
        let mut i: usize = 0;
        while i < list.len()
            invariant
                i <= list.len(),
                tier_a <= i,
                value_dependent <= i,
                a == (|op: OpKind| op.tier() == Tier::A),
                v == (|op: OpKind| op.value_dependent()),
                tier_a == list@.take(i as int).filter(a).len(),
                value_dependent == list@.take(i as int).filter(v).len(),
            decreases list.len() - i,
        {
            let op: OpKind = list[i];
            proof {
                assert(list@.take(i + 1) =~= list@.take(i as int).push(op));
                list@.take(i as int).lemma_filter_push(op, a);
                list@.take(i as int).lemma_filter_push(op, v);
            }
            let spec: crate::ops::OpSpec = op_spec(op);
            if spec.tier == Tier::A {
                tier_a += 1;
            }
            if spec.value_dependent {
                value_dependent += 1;
            }
            i += 1;
        }
        assert(list@.take(i as int) =~= list@);
        assert(list@ =~= qualifying(cells_model(census.cells@)));
        GoNoGo { operators_3plus: list.len(), tier_a, value_dependent }
    }

    /// Whether every clause of the bar is met.
    pub fn passes(&self) -> (r: bool)
        ensures
            r == (self.operators_3plus >= MIN_OPERATORS && self.tier_a >= MIN_TIER_A
                && self.value_dependent >= MIN_VALUE_DEPENDENT),
    {
        self.operators_3plus >= MIN_OPERATORS && self.tier_a >= MIN_TIER_A && self.value_dependent
            >= MIN_VALUE_DEPENDENT
    }

    /// The margin of a clause, in fortieths of what it asks for: the three clauses ask for numbers
    /// that all divide forty.
    pub open spec fn margin(got: usize, need: usize) -> int {
        got * (40int / (need as int)) - 40
    }

    /// The smallest margin by which any clause clears its bar, in fortieths of the bar. A bar that
    /// is met by a hair is not a mandate.
    pub fn tightest_margin(&self) -> (r: i128)
        ensures
            r <= Self::margin(self.operators_3plus, MIN_OPERATORS),
            r <= Self::margin(self.tier_a, MIN_TIER_A),
            r <= Self::margin(self.value_dependent, MIN_VALUE_DEPENDENT),
            r == Self::margin(self.operators_3plus, MIN_OPERATORS) || r == Self::margin(
                self.tier_a,
                MIN_TIER_A,
            ) || r == Self::margin(self.value_dependent, MIN_VALUE_DEPENDENT),
            r >= 0 <==> (self.operators_3plus >= MIN_OPERATORS && self.tier_a >= MIN_TIER_A
                && self.value_dependent >= MIN_VALUE_DEPENDENT),
    {
        let operators: i128 = self.operators_3plus as i128 * 2 - 40;
        let tier_a: i128 = self.tier_a as i128 * 4 - 40;
        let value_dependent: i128 = self.value_dependent as i128 * 5 - 40;
        let lower: i128 = if operators < tier_a {
            operators
        } else {
            tier_a
        };
        if value_dependent < lower {
            value_dependent
        } else {
            lower
        }
    }
}

/// Whether every clause of the bar is met by the operators that count.
pub open spec fn bar_is_met(q: Seq<OpKind>) -> bool {
    &&& q.len() >= MIN_OPERATORS
    &&& q.filter(|op: OpKind| op.tier() == Tier::A).len() >= MIN_TIER_A
    &&& q.filter(|op: OpKind| op.value_dependent()).len() >= MIN_VALUE_DEPENDENT
}

/// Where fewer participants support an operator than it takes, at whatever type, no operator counts,
/// and the bar is not met.
pub proof fn lemma_too_few_participants_never_pass(cells: Seq<CellModel>)
    requires
        forall|op: OpKind, elem: ElemType|
            (#[trigger] supporters(cells, op, elem)).len() < MIN_PARTICIPANTS,
    ensures
        qualifying(cells).len() == 0,
        !bar_is_met(qualifying(cells)),
{
    let f = |op: OpKind| supported_by(cells, op, MIN_PARTICIPANTS as nat);
    if qualifying(cells).len() > 0 {
        OpKind::ALL@.lemma_filter_pred(f, 0);
    }
}

} // verus!
