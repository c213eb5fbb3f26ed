//! What is made of what runtimes do: what counts as support, what a census comes to, when a
//! refusal is a gap, and how answers are taken out.

use vstd::prelude::*;

use crate::capability::{cell_keys, claiming, count_for, drift_text, missing_types, reading};
use crate::capability::{CapabilitiesModel, Key};
use crate::case::{data_bytes, data_of_bytes, CaseModel, DataModel, ElemType, InputRole, OpKind, TensorModel};
use crate::census::{bar_is_met, detail_of, qualifying, supported_by, supporters, supports, tally_upto};
use crate::census::{assembled, CellModel, Census, GoNoGo, Support};
use crate::evidence_laws::below;
use crate::finding_laws::unchanged;
use crate::metamorphic_laws::kind_of;
use crate::ops::{admitted_pairs, output_elem, requires_type, Tier};
use crate::order::{distinct, lemma_distinct_keeps_the_members};
use crate::outcome::{OnnxOutcome, OutcomeModel};
use crate::repro::outcome_or_crash;
use crate::runtimes::{answer_of, fed_of, first_unheld, output_of, outputs_upto};
use crate::runtimes::{candle_answer_of, raws_of, Content, ContentModel};

verus! {

// ---- support ----

/// Only a result is support, only a declared gap is a gap, and a crash is one whether it came at
/// once or late.
pub proof fn lemma_what_counts_as_support(o: OutcomeModel)
    ensures
        Support::of(o) == Support::Supported <==> o is Produced,
        Support::of(o) == Support::Unsupported <==> o is Unsupported,
        Support::of(o) == Support::Rejected <==> o is Rejected,
        Support::of(o) == Support::Crashed <==> o is Crashed || o is TimedOut,
        detail_of(o) is None <==> o is Produced,
        detail_of(o) matches Some(text) ==> !(o is TimedOut) ==> text.len() <= 160,
{
}

/// The operators that are exact, the quantized ones, and the rest.
pub proof fn lemma_tiers_of_operators(op: OpKind)
    ensures
        op.tier() == Tier::Q <==> op == OpKind::QuantizeLinear || op == OpKind::DequantizeLinear || op
            == OpKind::MatMulInteger || op == OpKind::DynamicQuantizeLinear,
        op.tier() == Tier::B <==> op == OpKind::Add || op == OpKind::Sub || op == OpKind::Mul || op
            == OpKind::Div || op == OpKind::Min || op == OpKind::Max || op == OpKind::Abs || op
            == OpKind::Neg || op == OpKind::Sign || op == OpKind::Sqrt || op == OpKind::Floor || op
            == OpKind::Ceil || op == OpKind::Round,
        op.value_dependent() <==> op != OpKind::Identity && op != OpKind::Reshape && op
            != OpKind::Transpose && op != OpKind::Concat && op != OpKind::Squeeze && op
            != OpKind::Unsqueeze && op != OpKind::Shape && op != OpKind::Size && op != OpKind::Slice
            && op != OpKind::Pad,
{
}

// ---- censuses ----

/// A runtime is among the supporters of an operator at a type exactly where one of its cells says
/// that it gave a result.
pub proof fn lemma_who_supports(cells: Seq<CellModel>, op: OpKind, elem: ElemType, runtime: Seq<char>)
    ensures
        supporters(cells, op, elem).contains(runtime) <==> exists|i: int|
            0 <= i < cells.len() && (#[trigger] cells[i]).runtime == runtime && cells[i].op
                == op.text() && cells[i].elem_type == elem && cells[i].support
                == Support::Supported,
{
    let f = supports(op, elem);
    let kept = cells.filter(f);
    if supporters(cells, op, elem).contains(runtime) {
        let k = choose|k: int|
            0 <= k < supporters(cells, op, elem).len() && supporters(cells, op, elem)[k] == runtime;
        cells.lemma_filter_pred(f, k);
        assert(kept.contains(kept[k]));
        cells.lemma_filter_contains_rev(f, kept[k]);
        let i = choose|i: int| 0 <= i < cells.len() && cells[i] == kept[k];
        assert(cells[i].runtime == runtime);
    }
    if exists|i: int|
        0 <= i < cells.len() && (#[trigger] cells[i]).runtime == runtime && cells[i].op == op.text()
            && cells[i].elem_type == elem && cells[i].support == Support::Supported {
        let i = choose|i: int|
            0 <= i < cells.len() && (#[trigger] cells[i]).runtime == runtime && cells[i].op
                == op.text() && cells[i].elem_type == elem && cells[i].support
                == Support::Supported;
        cells.lemma_filter_contains(f, i);
        let k = choose|k: int| 0 <= k < kept.len() && kept[k] == cells[i];
        assert(supporters(cells, op, elem)[k] == runtime);
    }
}

/// An operator counts where three cells say that it is supported at one type.
pub proof fn lemma_an_operator_counts_with_three(cells: Seq<CellModel>, op: OpKind)
    ensures
        qualifying(cells).contains(op) <==> exists|elem: ElemType|
            (#[trigger] supporters(cells, op, elem)).len() >= 3,
{
    let f = |op: OpKind| supported_by(cells, op, 3);
    if qualifying(cells).contains(op) {
        let k = choose|k: int| 0 <= k < qualifying(cells).len() && qualifying(cells)[k] == op;
        OpKind::ALL@.lemma_filter_pred(f, k);
        let j = choose|j: int|
            0 <= j < 7 && supporters(cells, op, #[trigger] ElemType::ALL@[j]).len() >= 3;
        assert(supporters(cells, op, ElemType::ALL@[j]).len() >= 3);
    }
    if exists|elem: ElemType| (#[trigger] supporters(cells, op, elem)).len() >= 3 {
        let elem = choose|elem: ElemType| (#[trigger] supporters(cells, op, elem)).len() >= 3;
        crate::case::lemma_every_elem_type_is_listed(elem);
        let j = choose|j: int| 0 <= j < 7 && #[trigger] ElemType::ALL[j] == elem;
        assert(ElemType::ALL@[j] == elem);
        assert(supported_by(cells, op, 3));
        crate::case::lemma_every_operator_is_listed(op);
        let a = choose|a: int| 0 <= a < 37 && #[trigger] OpKind::ALL[a] == op;
        assert(OpKind::ALL@[a] == op);
        OpKind::ALL@.lemma_filter_contains(f, a);
    }
}

/// The bar is met by twenty operators, ten of them exact and eight of them about values.
pub proof fn lemma_where_the_bar_is(q: Seq<OpKind>)
    ensures
        bar_is_met(q) <==> q.len() >= 20 && q.filter(
            |op: OpKind| op.tier() == Tier::A,
        ).len() >= 10 && q.filter(|op: OpKind| op.value_dependent()).len() >= 8,
{
}

/// A margin is told in fortieths: twice what there are of operators, four times the exact ones, five
/// times those about values, each less forty. It is not negative where the clause is met.
pub proof fn lemma_margins_are_fortieths(got: usize)
    ensures
        GoNoGo::margin(got, 20) == 2 * got - 40,
        GoNoGo::margin(got, 10) == 4 * got - 40,
        GoNoGo::margin(got, 8) == 5 * got - 40,
        GoNoGo::margin(got, 20) >= 0 <==> got >= 20,
        GoNoGo::margin(got, 10) >= 0 <==> got >= 10,
        GoNoGo::margin(got, 8) >= 0 <==> got >= 8,
{
    assert(40int / 20 == 2 && 40int / 10 == 4 && 40int / 8 == 5);
    assert(got * 2 == 2 * got && got * 4 == 4 * got && got * 5 == 5 * got);
}

/// A tally counts the cells of a runtime with a kind of support.
pub proof fn lemma_a_tally_counts_cells(
    cells: Seq<CellModel>,
    runtime: Seq<char>,
    support: Support,
    n: nat,
)
    ensures
        tally_upto(cells, runtime, support, n) == below(n).filter(
            |i: int| cells[i].runtime == runtime && cells[i].support == support,
        ).len(),
    decreases n,
{
    reveal(Seq::filter);
    if n > 0 {
        let f = |i: int| cells[i].runtime == runtime && cells[i].support == support;
        lemma_a_tally_counts_cells(cells, runtime, support, (n - 1) as nat);
        assert(below(n) =~= below((n - 1) as nat).push(n - 1));
        below((n - 1) as nat).lemma_filter_push(n - 1, f);
    }
}

/// A census holds one cell for every admitted pair and every runtime, pair by pair: what the cell
/// says is what came of asking that runtime about that pair.
pub proof fn lemma_where_a_cell_stands(
    r: Census,
    runtimes: Seq<String>,
    outcomes: Seq<OnnxOutcome>,
    pair: int,
    runtime: int,
)
    requires
        assembled(r, runtimes, outcomes),
        0 <= pair < admitted_pairs(r.opset, 259).len(),
        0 <= runtime < runtimes.len(),
    ensures
        ({
            let at = pair * runtimes.len() + runtime;
            let cell = r.cells@[at]@;
            &&& 0 <= at < r.cells.len()
            &&& cell.op == admitted_pairs(r.opset, 259)[pair].0.text()
            &&& cell.elem_type == admitted_pairs(r.opset, 259)[pair].1
            &&& cell.runtime == runtimes[runtime]@
            &&& cell.support == Support::of(outcomes[at]@)
        }),
{
    let w = runtimes.len() as int;
    let n = admitted_pairs(r.opset, 259).len() as int;
    let at = pair * w + runtime;
    vstd::arithmetic::div_mod::lemma_fundamental_div_mod_converse(at, w, pair, runtime);
    assert(0 <= at < n * w) by (nonlinear_arith)
        requires
            0 <= pair < n,
            0 <= runtime < w,
            at == pair * w + runtime,
    ;
}

// ---- claims ----

/// A runtime claims an operator at a type exactly where a cell of the census says that it gave a
/// result, and was measured wherever it has a cell.
pub proof fn lemma_a_claim_is_a_result(cells: Seq<CellModel>, key: Key)
    ensures
        distinct(cell_keys(claiming(cells))).contains(key) <==> exists|i: int|
            0 <= i < cells.len() && (#[trigger] cells[i]).support == Support::Supported
                && cells[i].runtime == key.0 && cells[i].op == key.1 && cells[i].elem_type == key.2,
        distinct(cell_keys(cells)).contains(key) <==> exists|i: int|
            0 <= i < cells.len() && (#[trigger] cells[i]).runtime == key.0 && cells[i].op == key.1
                && cells[i].elem_type == key.2,
{
    let f = |c: CellModel| c.support == Support::Supported;
    let kept = claiming(cells);
    lemma_distinct_keeps_the_members(cell_keys(kept), key);
    lemma_distinct_keeps_the_members(cell_keys(cells), key);
    if cell_keys(kept).contains(key) {
        let k = choose|k: int| 0 <= k < cell_keys(kept).len() && cell_keys(kept)[k] == key;
        cells.lemma_filter_pred(f, k);
        assert(kept.contains(kept[k]));
        cells.lemma_filter_contains_rev(f, kept[k]);
        let i = choose|i: int| 0 <= i < cells.len() && cells[i] == kept[k];
        assert(cells[i].support == Support::Supported);
    }
    if exists|i: int|
        0 <= i < cells.len() && (#[trigger] cells[i]).support == Support::Supported
            && cells[i].runtime == key.0 && cells[i].op == key.1 && cells[i].elem_type == key.2 {
        let i = choose|i: int|
            0 <= i < cells.len() && (#[trigger] cells[i]).support == Support::Supported
                && cells[i].runtime == key.0 && cells[i].op == key.1 && cells[i].elem_type == key.2;
        cells.lemma_filter_contains(f, i);
        let k = choose|k: int| 0 <= k < kept.len() && kept[k] == cells[i];
        assert(cell_keys(kept)[k] == key);
    }
    if cell_keys(cells).contains(key) {
        let k = choose|k: int| 0 <= k < cell_keys(cells).len() && cell_keys(cells)[k] == key;
        assert(cells[k].runtime == key.0);
    }
    if exists|i: int|
        0 <= i < cells.len() && (#[trigger] cells[i]).runtime == key.0 && cells[i].op == key.1
            && cells[i].elem_type == key.2 {
        let i = choose|i: int|
            0 <= i < cells.len() && (#[trigger] cells[i]).runtime == key.0 && cells[i].op == key.1
                && cells[i].elem_type == key.2;
        assert(cell_keys(cells)[i] == key);
    }
}

/// A refusal stays one exactly where the runtime claims the operator at the type of the data, and
/// becomes a gap otherwise. Nothing else is changed.
pub proof fn lemma_a_refusal_of_what_is_claimed_stands(
    caps: CapabilitiesModel,
    runtime: Seq<char>,
    c: CaseModel,
    o: OutcomeModel,
)
    requires
        c.inputs.len() > 0,
        c.op == OpKind::Where ==> c.inputs.len() > 1,
    ensures
        ({
            let t = kind_of(
                if c.op == OpKind::Where {
                    c.inputs[1].data
                } else {
                    c.inputs[0].data
                },
            );
            let claimed = caps.claimed.contains((runtime, c.op.text(), t));
            &&& o is Rejected && !claimed ==> reading(caps, runtime, c, o) is Unsupported
            &&& !(o is Rejected) || claimed ==> reading(caps, runtime, c, o) == o
        }),
{
}

/// A case needs the types of its inputs and of its output. A runtime is kept from a case exactly
/// where it needs a type at which the runtime gave no result, although it gave some at others.
pub proof fn lemma_a_type_is_missing(
    caps: CapabilitiesModel,
    runtime: Seq<char>,
    c: CaseModel,
    t: ElemType,
)
    ensures
        requires_type(c, t) <==> output_elem(c) == t || exists|i: int|
            0 <= i < c.inputs.len() && kind_of((#[trigger] c.inputs[i]).data) == t,
        missing_types(caps, runtime, c).contains(t) <==> requires_type(c, t) && (exists|i: int|
            0 <= i < caps.claimed.len() && (#[trigger] caps.claimed[i]).0 == runtime) && (forall|
            i: int,
        |
            0 <= i < caps.claimed.len() && (#[trigger] caps.claimed[i]).0 == runtime
                ==> caps.claimed[i].2 != t),
{
    let f = |t: ElemType| requires_type(c, t);
    let g = |t: ElemType| caps.cannot_hold(runtime, t);
    let needed = ElemType::ALL@.filter(f);
    crate::case::lemma_every_elem_type_is_listed(t);
    let j = choose|j: int| 0 <= j < 7 && #[trigger] ElemType::ALL[j] == t;
    assert(ElemType::ALL@[j] == t);
    if requires_type(c, t) {
        ElemType::ALL@.lemma_filter_contains(f, j);
        if g(t) {
            let k = choose|k: int| 0 <= k < needed.len() && needed[k] == t;
            needed.lemma_filter_contains(g, k);
        }
    }
    if missing_types(caps, runtime, c).contains(t) {
        let all = missing_types(caps, runtime, c);
        let k = choose|k: int| 0 <= k < all.len() && all[k] == t;
        needed.lemma_filter_pred(g, k);
        needed.lemma_filter_contains_rev(g, t);
        let l = choose|l: int| 0 <= l < needed.len() && needed[l] == t;
        ElemType::ALL@.lemma_filter_pred(f, l);
    }
    if exists|i: int| 0 <= i < c.inputs.len() && kind_of((#[trigger] c.inputs[i]).data) == t {
        let i = choose|i: int| 0 <= i < c.inputs.len() && kind_of((#[trigger] c.inputs[i]).data) == t;
        assert(c.inputs[i].elem_type() == t);
    }
}

/// A census has drifted about a component exactly where it does not record the version that is
/// there now.
pub proof fn lemma_a_census_drifts(
    environment: Seq<(Seq<char>, Seq<char>)>,
    name: Seq<char>,
    version: Seq<char>,
)
    ensures
        drift_text(environment, name, version) is None <==> unchanged(environment, name, version),
{
    crate::finding_laws::lemma_version_in(environment, name, version);
}

/// How many combinations of a runtime there are.
pub proof fn lemma_combinations_are_counted(keys: Seq<Key>, runtime: Seq<char>, n: nat)
    ensures
        count_for(keys, runtime, n) == below(n).filter(|i: int| keys[i].0 == runtime).len(),
    decreases n,
{
    reveal(Seq::filter);
    if n > 0 {
        let f = |i: int| keys[i].0 == runtime;
        lemma_combinations_are_counted(keys, runtime, (n - 1) as nat);
        assert(below(n) =~= below((n - 1) as nat).push(n - 1));
        below((n - 1) as nat).lemma_filter_push(n - 1, f);
    }
}

// ---- what a runtime is fed ----

/// An input is fed exactly where it is not stored in the model, in its own shape and with its
/// bytes as they stand.
pub proof fn lemma_what_is_fed(inputs: Seq<TensorModel>, i: int)
    requires
        0 <= i < inputs.len(),
    ensures
        inputs[i].role == InputRole::Data ==> exists|k: int|
            0 <= k < raws_of(fed_of(inputs)).len() && (#[trigger] raws_of(fed_of(inputs))[k]).name
                == inputs[i].name && raws_of(fed_of(inputs))[k].elem_type == kind_of(inputs[i].data)
                && raws_of(fed_of(inputs))[k].dims == inputs[i].dims
                && raws_of(fed_of(inputs))[k].bytes == data_bytes(inputs[i].data),
        inputs[i].role == InputRole::Initializer ==> !fed_of(inputs).contains(inputs[i]),
{
    let f = |t: TensorModel| t.initializer() == false;
    let fed = fed_of(inputs);
    if inputs[i].role == InputRole::Data {
        inputs.lemma_filter_contains(f, i);
        let k = choose|k: int| 0 <= k < fed.len() && fed[k] == inputs[i];
        assert(raws_of(fed)[k].name == inputs[i].name);
    } else if fed.contains(inputs[i]) {
        let k = choose|k: int| 0 <= k < fed.len() && fed[k] == inputs[i];
        inputs.lemma_filter_pred(f, k);
    }
}

/// Whether elements are of a type that `candle` has: the floating point ones, the widest integers
/// and unsigned bytes.
pub open spec fn held_by_candle(d: DataModel) -> bool {
    d is F32 || d is F64 || d is I64 || d is U8
}

/// The tensor that `candle` is stopped by is the first that it cannot hold.
pub proof fn lemma_the_first_tensor_that_is_not_held(fed: Seq<TensorModel>, at: int, k: int)
    requires
        0 <= at <= k <= fed.len(),
        forall|i: int| at <= i < k ==> held_by_candle((#[trigger] fed[i]).data),
        k < fed.len() ==> !held_by_candle(fed[k].data),
    ensures
        first_unheld(fed, at) == k,
    decreases k - at,
{
    if at < k {
        assert(held_by_candle(fed[at].data));
        lemma_the_first_tensor_that_is_not_held(fed, at + 1, k);
    }
}

/// A participant that gave no outcome is taken to have crashed, and any other for what it gave.
pub proof fn lemma_no_outcome_is_a_crash(o: Option<OnnxOutcome>)
    ensures
        o is None ==> outcome_or_crash(o) is Crashed,
        o matches Some(given) ==> outcome_or_crash(o) == given@,
{
}

// ---- what is taken out ----

/// What `candle` gives back is one tensor under the name that cases use. A type that is not known
/// is a gap, and everything else that is not a tensor a refusal.
pub proof fn lemma_what_candle_gives_back(output: Option<Content>)
    ensures
        output is None ==> candle_answer_of(output) is Rejected,
        output matches Some(content) ==> match content@ {
            ContentModel::Tensor(elem, dims, bytes) => candle_answer_of(output)
                matches OutcomeModel::Produced(ts) && ts.len() == 1 && ts[0].name == "out"@
                && ts[0].dims == dims && ts[0].data == data_of_bytes(elem, bytes),
            ContentModel::Unknown(_) => candle_answer_of(output) is Unsupported,
            _ => candle_answer_of(output) is Rejected,
        },
{
}


proof fn lemma_outputs(
    outputs: Seq<(Seq<char>, ContentModel)>,
    word: Seq<char>,
    fixed: Option<Seq<char>>,
    n: nat,
)
    requires
        n <= outputs.len(),
    ensures
        outputs_upto(outputs, word, fixed, n) is Ok <==> forall|i: int|
            0 <= i < n ==> (#[trigger] outputs[i]).1 is Tensor,
        outputs_upto(outputs, word, fixed, n) matches Ok(ts) ==> ts.len() == n && forall|i: int|
            0 <= i < n ==> output_of(outputs[i], word, fixed) == Ok::<TensorModel, Seq<char>>(
                #[trigger] ts[i],
            ),
    decreases n,
{
    if n > 0 {
        lemma_outputs(outputs, word, fixed, (n - 1) as nat);
    }
}

/// An answer is a result exactly where every output is a tensor that can be read. It then holds one
/// tensor for each, in order, with its name, its shape and its elements.
pub proof fn lemma_an_answer_is_all_tensors_or_a_refusal(
    outputs: Seq<(Seq<char>, ContentModel)>,
    word: Seq<char>,
    i: int,
)
    requires
        0 <= i < outputs.len(),
    ensures
        ({
            let answer = answer_of(outputs, word, None);
            &&& answer is Produced || answer is Rejected
            &&& answer is Produced <==> forall|k: int|
                0 <= k < outputs.len() ==> (#[trigger] outputs[k]).1 is Tensor
            &&& answer matches OutcomeModel::Produced(ts) ==> {
                &&& ts.len() == outputs.len()
                &&& outputs[i].1 matches ContentModel::Tensor(elem, dims, bytes) ==> {
                    &&& ts[i].name == outputs[i].0
                    &&& ts[i].dims == dims
                    &&& ts[i].data == data_of_bytes(elem, bytes)
                }
            }
        }),
{
    lemma_outputs(outputs, word, None, outputs.len());
    if let OutcomeModel::Produced(ts) = answer_of(outputs, word, None) {
        assert(output_of(outputs[i], word, None) == Ok::<TensorModel, Seq<char>>(ts[i]));
    }
}

/// Where a runtime gives its outputs no names, they all go by the name that is fixed for them, and
/// nothing else about them changes.
pub proof fn lemma_outputs_without_names_are_named(
    outputs: Seq<(Seq<char>, ContentModel)>,
    word: Seq<char>,
    fixed: Seq<char>,
    i: int,
)
    requires
        0 <= i < outputs.len(),
        forall|k: int| 0 <= k < outputs.len() ==> (#[trigger] outputs[k]).1 is Tensor,
    ensures
        ({
            let named = answer_of(outputs, word, Some(fixed));
            let plain = answer_of(outputs, word, None);
            &&& named matches OutcomeModel::Produced(ts)
            &&& plain matches OutcomeModel::Produced(us)
            &&& ts.len() == us.len()
            &&& ts[i].name == fixed
            &&& ts[i].dims == us[i].dims
            &&& ts[i].data == us[i].data
        }),
{
    lemma_outputs(outputs, word, None, outputs.len());
    lemma_outputs(outputs, word, Some(fixed), outputs.len());
    let ts = answer_of(outputs, word, Some(fixed))->Produced_0;
    let us = answer_of(outputs, word, None)->Produced_0;
    assert(output_of(outputs[i], word, Some(fixed)) == Ok::<TensorModel, Seq<char>>(ts[i]));
    assert(output_of(outputs[i], word, None) == Ok::<TensorModel, Seq<char>>(us[i]));
}

} // verus!
