//! What the probes of the operators look like, and what rules and pools say of themselves.

use vstd::prelude::*;
use vstd::arithmetic::power2::pow2;

use crate::attrs::{lookup, AttrModel};
use crate::bits::{lemma_top_bit_below, lemma_two_to};
use crate::capability::drifts_upto;
use crate::case::{total_count, DataModel, ElemType, OpKind, TensorModel};
use crate::census::{counts_upto, CellModel, Support, SUPPORTS};
use crate::evidence_laws::{below, lemma_no_line_is_empty};
use crate::feature_laws::{fractions_in, huge_at, infinite_at, lemma_integers_stand_at_their_ends};
use crate::feature_laws::{lemma_numbers_are_read_from_their_fields, signed_zero_at, tiny_at};
use crate::feature_laws::undefined_at;
use crate::features::{has_bit, FEATURES};
use crate::finding_laws::unchanged;
use crate::generation_laws::lemma_a_pattern_holds_its_number;
use crate::metamorphic_laws::kind_of;
use crate::negatives::{data_is_interesting, provenance_of, Provenance, Source};
use crate::ops::{output_elem, probe_attrs, probe_data, probe_exists, probe_model};
use crate::ops::probe_shape;
use crate::predicate::{parts_upto, rule_text, Predicate};
use crate::runtime_laws::{lemma_a_census_drifts, lemma_a_tally_counts_cells};
use crate::search::no_hits;
use crate::text::{holds_text, join_text};
use crate::validation::{input_name_text, sample_case, sample_number};
use crate::validation_laws::{first_version, inputs_taken, lemma_what_operators_take, list_of, takes_type};

verus! {

// ---- probes ----

/// A probe has the rank that it is asked for, no empty axis, and no more than three positions on
/// any.
pub proof fn lemma_probes_have_their_rank(rank: nat, i: int)
    requires
        rank <= 3,
    ensures
        probe_shape(rank).len() == rank,
        0 <= i < rank ==> 2 <= probe_shape(rank)[i] <= 3,
{
}

/// The numbers of a probe count up from ten, or from ten more for each further input, and its
/// truth values alternate.
pub proof fn lemma_probes_count_up(elem: ElemType, count: nat, offset: nat, i: int)
    requires
        0 <= i < count <= 12,
        offset <= 2,
    ensures
        probe_data(elem, count, offset).len() == count,
        kind_of(probe_data(elem, count, offset)) == elem,
        ({
            let n = 10 + 10 * offset + i;
            match probe_data(elem, count, offset) {
                DataModel::I32(v) => v[i] == n,
                DataModel::I64(v) => v[i] == n,
                DataModel::I8(v) => v[i] == n,
                DataModel::U8(v) => v[i] == n,
                DataModel::Bool(v) => v[i] == ((i + offset) % 2 == 0),
                DataModel::F32(v) => {
                    let b = v[i] as int;
                    let exponent = (b / 0x80_0000) % 0x100;
                    &&& b < 0x8000_0000
                    &&& exponent <= 150
                    &&& 0x80_0000 + b % 0x80_0000 == n * pow2((150 - exponent) as nat)
                },
                DataModel::F64(_) => true,
            }
        }),
{
    let n = (10 + 10 * offset + i) as nat;
    if elem == ElemType::F32 {
        lemma_two_to();
        lemma_top_bit_below(n, 7);
        lemma_a_pattern_holds_its_number(false, n, 0);
    }
}

/// Whether an operator has nothing to do on a scalar.
pub open spec fn works_along_an_axis(op: OpKind) -> bool {
    op == OpKind::Transpose || op == OpKind::Concat || op == OpKind::Gather || op == OpKind::Squeeze
        || op == OpKind::Slice || op == OpKind::Pad
}

/// An operator is probed where it takes the type at the version, and on a scalar only where it does
/// not work along an axis.
pub proof fn lemma_where_operators_are_probed(op: OpKind, elem: ElemType, opset: i64, rank: nat)
    ensures
        probe_exists(op, elem, opset, rank) <==> takes_type(op, elem) && opset >= first_version(op)
            && (rank > 0 || !works_along_an_axis(op)),
{
    lemma_what_operators_take(op, elem, opset);
}

/// A probe is of the operator, the version and the type that it is asked for, and a conversion
/// goes to another type.
pub proof fn lemma_a_probe_is_what_is_asked(op: OpKind, elem: ElemType, opset: i64, rank: nat)
    requires
        takes_type(op, elem),
    ensures
        ({
            let c = probe_model(op, elem, opset, rank);
            &&& c.op == op
            &&& c.opset == opset
            &&& kind_of(
                if op == OpKind::Where {
                    c.inputs[1].data
                } else {
                    c.inputs[0].data
                },
            ) == elem
            &&& op == OpKind::Cast ==> output_elem(c) != elem && (output_elem(c) == ElemType::I64
                || output_elem(c) == ElemType::F32)
        }),
{
    let c = probe_model(op, elem, opset, rank);
    if op == OpKind::Cast {
        assert(c.attrs[0].0 == "to"@);
        let t = if elem == ElemType::I64 {
            ElemType::F32
        } else {
            ElemType::I64
        };
        assert(lookup(c.attrs, "to"@) == Some(AttrModel::Int(t.wire_number() as i64)));
        crate::case::lemma_wire_round_trip(t);
    }
}

/// The parameters of probes: everything into one axis, the first position, the first axis, one
/// position of it, one more at every end, and the axes reversed.
pub proof fn lemma_the_parameters_of_probes(elem: ElemType, opset: i64, rank: nat, k: int)
    requires
        1 <= rank <= 3,
        0 <= k < 2 * rank,
    ensures
        list_of(probe_model(OpKind::Reshape, elem, opset, rank).inputs[1]).len() == 1,
        list_of(probe_model(OpKind::Gather, elem, opset, rank).inputs[1]) == seq![0i64],
        list_of(probe_model(OpKind::Squeeze, elem, opset, rank).inputs[1]) == seq![0i64],
        probe_model(OpKind::Squeeze, elem, opset, rank).inputs[0].dims[0] == 1,
        list_of(probe_model(OpKind::Unsqueeze, elem, opset, rank).inputs[1]) == seq![0i64],
        list_of(probe_model(OpKind::Slice, elem, opset, rank).inputs[1]) == seq![0i64],
        list_of(probe_model(OpKind::Slice, elem, opset, rank).inputs[2]) == seq![1i64],
        list_of(probe_model(OpKind::Pad, elem, opset, rank).inputs[1]).len() == 2 * rank,
        list_of(probe_model(OpKind::Pad, elem, opset, rank).inputs[1])[k] == 1,
        probe_attrs(OpKind::Concat, elem, rank) == seq![("axis"@, AttrModel::Int(0))],
        probe_attrs(OpKind::Gather, elem, rank) == seq![("axis"@, AttrModel::Int(0))],
        k < rank ==> (probe_attrs(OpKind::Transpose, elem, rank)[0].1 matches AttrModel::Ints(perm)
            && perm.len() == rank && perm[k] == rank - 1 - k),
{
}

/// The types that values are quantized to saturate at the ends of their ranges.
pub proof fn lemma_bytes_saturate_at_their_ends(t: ElemType)
    ensures
        t == ElemType::I8 ==> t.saturation() == Some((i8::MIN as i64, i8::MAX as i64)),
        t == ElemType::U8 ==> t.saturation() == Some((u8::MIN as i64, u8::MAX as i64)),
        t != ElemType::I8 && t != ElemType::U8 ==> t.saturation() is None,
{
}

/// What a case holds in all is what its inputs hold.
pub proof fn lemma_elements_add_up(inputs: Seq<TensorModel>, next: TensorModel)
    ensures
        total_count(inputs.push(next)) == total_count(inputs) + crate::case::count_of(next.dims),
        total_count(Seq::<TensorModel>::empty()) == 0,
{
    assert(inputs.push(next).drop_last() =~= inputs);
}

// ---- samples ----

/// The numbers of a sample run from one to a hundred. They differ from input to input, and within
/// an input they repeat only after a hundred.
pub proof fn lemma_samples_differ(k: int, l: int, i: nat, j: nat)
    requires
        0 <= k,
        0 <= l,
        i < 10,
        j < 10,
    ensures
        1 <= sample_number(k, i) <= 100,
        i != j ==> sample_number(k, i) != sample_number(k, j),
        sample_number(k, i) == sample_number(l, i) <==> k % 100 == l % 100,
{
}

/// The first inputs are named by the letters, in order.
pub proof fn lemma_inputs_are_named_by_letters(i: nat)
    requires
        i < 26,
    ensures
        input_name_text(i).len() == 1,
        input_name_text(i)[0] as int == 'a' as int + i,
        'a' <= input_name_text(i)[0] <= 'z',
{
}

/// A sample is of the operator, the version, the shape and the type that it is asked for, with as
/// many inputs as the operator takes at least, and two where it combines elements.
pub proof fn lemma_a_sample_is_what_is_asked(
    op: OpKind,
    dims: Seq<i64>,
    opset: i64,
    elem: ElemType,
    i: int,
)
    requires
        0 <= i < sample_case(op, dims, opset, elem).inputs.len(),
    ensures
        ({
            let c = sample_case(op, dims, opset, elem);
            &&& c.op == op
            &&& c.opset == opset
            &&& c.inputs[i].dims == dims
            &&& kind_of(c.inputs[i].data) == elem
            &&& c.attrs.len() == 0
            &&& c.inputs.len() == (if op == OpKind::Min || op == OpKind::Max {
                2
            } else {
                inputs_taken(op).0
            })
        }),
{
}

// ---- rules in words ----

proof fn lemma_parts(p: Predicate, n: nat, text: Seq<char>)
    requires
        n <= 55,
    ensures
        parts_upto(p, n).contains(text) <==> exists|k: int|
            0 <= k < n && ((has_bit(p.required, k as u64) && text == (#[trigger] FEATURES[k])@) || (
            has_bit(p.forbidden, k as u64) && text == "¬"@ + FEATURES[k]@)),
    decreases n,
{
    if n > 0 {
        lemma_parts(p, (n - 1) as nat, text);
        let rest = parts_upto(p, (n - 1) as nat);
        let all = parts_upto(p, n);
        let name = FEATURES[n - 1]@;
        let (r, f) = (has_bit(p.required, (n - 1) as u64), has_bit(p.forbidden, (n - 1) as u64));
        if rest.contains(text) {
            let i = choose|i: int| 0 <= i < rest.len() && rest[i] == text;
            assert(all[i] == text);
        }
        if r && text == name {
            assert(all[rest.len() as int] == text);
        }
        if f && text == "¬"@ + name {
            assert(all[all.len() - 1] == text);
        }
        if all.contains(text) {
            let i = choose|i: int| 0 <= i < all.len() && all[i] == text;
            if i < rest.len() {
                assert(rest[i] == text);
                let k = choose|k: int|
                    0 <= k < n - 1 && ((has_bit(p.required, k as u64) && text == (
                    #[trigger] FEATURES[k])@) || (has_bit(p.forbidden, k as u64) && text == "¬"@
                        + FEATURES[k]@));
                assert(0 <= k < n);
            } else {
                assert(FEATURES[n - 1]@ == name);
            }
        }
        if exists|k: int|
            0 <= k < n && ((has_bit(p.required, k as u64) && text == (#[trigger] FEATURES[k])@) || (
            has_bit(p.forbidden, k as u64) && text == "¬"@ + FEATURES[k]@)) {
            let k = choose|k: int|
                0 <= k < n && ((has_bit(p.required, k as u64) && text == (
                #[trigger] FEATURES[k])@) || (has_bit(p.forbidden, k as u64) && text == "¬"@
                    + FEATURES[k]@));
            if k < n - 1 {
                assert(FEATURES[k]@ == FEATURES[k]@);
            }
        }
    }
}

/// A rule in words names what it requires, and what it forbids with a sign of negation before it.
pub proof fn lemma_a_rule_names_its_features(p: Predicate, text: Seq<char>)
    requires
        p.required != 0 || p.forbidden != 0,
    ensures
        rule_text(p) == join_text(parts_upto(p, 55), " ∧ "@),
        parts_upto(p, 55).contains(text) <==> exists|k: int|
            0 <= k < 55 && ((has_bit(p.required, k as u64) && text == (#[trigger] FEATURES[k])@) || (
            has_bit(p.forbidden, k as u64) && text == "¬"@ + FEATURES[k]@)),
{
    lemma_parts(p, 55, text);
}

/// A rule that is committed is reported as hitting nothing, source by source.
pub proof fn lemma_nothing_is_hit(sources: Seq<Source>, i: int)
    requires
        sources.len() <= usize::MAX,
        0 <= i < no_hits(sources).len(),
    ensures
        ({
            let (s, hit, total) = no_hits(sources)[i];
            &&& hit == 0
            &&& total == below(sources.len()).filter(|k: int| sources[k] == s).len()
        }),
{
    let hits = Seq::new(sources.len(), |k: int| false);
    lemma_no_line_is_empty(sources, hits, i);
    let s = no_hits(sources)[i].0;
    let f = |k: int| sources[k] == s && hits[k];
    let all = below(sources.len());
    if all.filter(f).len() > 0 {
        all.lemma_filter_pred(f, 0);
        all.lemma_filter_contains_rev(f, all.filter(f)[0]);
    }
}

// ---- pools ----

/// Whether an element is one that a rule about awkward values might key on.
pub open spec fn awkward_at(d: DataModel, e: int) -> bool {
    match d {
        DataModel::I32(v) => v[e] == i32::MIN || v[e] == i32::MAX,
        DataModel::I64(v) => v[e] == i64::MIN || v[e] == i64::MAX,
        DataModel::I8(v) => v[e] == i8::MIN || v[e] == i8::MAX,
        DataModel::U8(v) => v[e] == u8::MIN || v[e] == u8::MAX,
        DataModel::Bool(_) => false,
        _ => undefined_at(d, e) || infinite_at(d, e) || signed_zero_at(d, e) || tiny_at(d, e)
            || huge_at(d, e),
    }
}

/// Data are interesting exactly where some element is awkward.
pub proof fn lemma_interesting_data_hold_something_awkward(d: DataModel)
    ensures
        data_is_interesting(d) <==> exists|e: int| 0 <= e < d.len() && #[trigger] awkward_at(d, e),
{
    lemma_numbers_are_read_from_their_fields(d);
    lemma_integers_stand_at_their_ends(d);
    match d {
        DataModel::F32(v) => {
            assert(fractions_in(d) == d.len());
            lemma_interesting_fractions(d);
        },
        DataModel::F64(v) => {
            assert(fractions_in(d) == d.len());
            lemma_interesting_fractions(d);
        },
        DataModel::I32(v) => {
            if data_is_interesting(d) {
                let e = choose|e: int|
                    0 <= e < v.len() && (#[trigger] v[e] == -0x8000_0000int || v[e]
                        == 0x7fff_ffffint);
                assert(awkward_at(d, e));
            }
        },
        DataModel::I64(v) => {
            if data_is_interesting(d) {
                let e = choose|e: int|
                    0 <= e < v.len() && (#[trigger] v[e] == -0x8000_0000_0000_0000int || v[e]
                        == 0x7fff_ffff_ffff_ffffint);
                assert(awkward_at(d, e));
            }
        },
        DataModel::I8(v) => {
            if data_is_interesting(d) {
                let e = choose|e: int|
                    0 <= e < v.len() && (#[trigger] v[e] == -128int || v[e] == 127int);
                assert(awkward_at(d, e));
            }
        },
        DataModel::U8(v) => {
            if data_is_interesting(d) {
                let e = choose|e: int|
                    0 <= e < v.len() && (#[trigger] v[e] == 0 || v[e] == 255int);
                assert(awkward_at(d, e));
            }
        },
        DataModel::Bool(_) => {},
    }
}

proof fn lemma_interesting_fractions(d: DataModel)
    requires
        d is F32 || d is F64,
        fractions_in(d) == d.len(),
    ensures
        data_is_interesting(d) <==> exists|e: int| 0 <= e < d.len() && #[trigger] awkward_at(d, e),
{
    lemma_numbers_are_read_from_their_fields(d);
    if data_is_interesting(d) {
        if crate::features::data_has_nan(d) {
            let e = choose|e: int| 0 <= e < fractions_in(d) && #[trigger] undefined_at(d, e);
            assert(awkward_at(d, e));
        } else if crate::features::data_has_inf(d) {
            let e = choose|e: int| 0 <= e < fractions_in(d) && #[trigger] infinite_at(d, e);
            assert(awkward_at(d, e));
        } else if crate::features::data_has_negative_zero(d) {
            let e = choose|e: int| 0 <= e < fractions_in(d) && #[trigger] signed_zero_at(d, e);
            assert(awkward_at(d, e));
        } else if crate::features::data_has_subnormal(d) {
            let e = choose|e: int| 0 <= e < fractions_in(d) && #[trigger] tiny_at(d, e);
            assert(awkward_at(d, e));
        } else {
            let e = choose|e: int| 0 <= e < fractions_in(d) && #[trigger] huge_at(d, e);
            assert(awkward_at(d, e));
        }
    }
    if exists|e: int| 0 <= e < d.len() && #[trigger] awkward_at(d, e) {
        let e = choose|e: int| 0 <= e < d.len() && #[trigger] awkward_at(d, e);
        assert(undefined_at(d, e) || infinite_at(d, e) || signed_zero_at(d, e) || tiny_at(d, e)
            || huge_at(d, e));
    }
}

/// What a description says of the origin of cases: those built by hand say so, a generator shows
/// itself by its first switch, and is the wider one where quantization is on. All else is unknown.
pub proof fn lemma_origins_are_read_from_descriptions(s: Seq<char>)
    ensures
        provenance_of(s) == Provenance::Constructed <==> holds_text(s, "by hand"@),
        provenance_of(s) == Provenance::SeededWide <==> !holds_text(s, "by hand"@) && holds_text(
            s,
            "float-elementwise="@,
        ) && holds_text(s, "quantized=on"@),
        provenance_of(s) == Provenance::SeededDefault <==> !holds_text(s, "by hand"@) && holds_text(
            s,
            "float-elementwise="@,
        ) && !holds_text(s, "quantized=on"@),
        provenance_of(s) == Provenance::Unknown <==> !holds_text(s, "by hand"@) && !holds_text(
            s,
            "float-elementwise="@,
        ),
{
}

// ---- censuses ----

proof fn lemma_counts(cells: Seq<CellModel>, runtime: Seq<char>, n: nat, k: int)
    requires
        n <= 4,
        0 <= k < n,
        crate::census::tally_upto(cells, runtime, SUPPORTS[k], cells.len()) > 0,
    ensures
        counts_upto(cells, runtime, n).contains(
            (
                SUPPORTS[k],
                crate::census::tally_upto(cells, runtime, SUPPORTS[k], cells.len()) as usize,
            ),
        ),
    decreases n,
{
    let row = (
        SUPPORTS[k],
        crate::census::tally_upto(cells, runtime, SUPPORTS[k], cells.len()) as usize,
    );
    let rest = counts_upto(cells, runtime, (n - 1) as nat);
    let all = counts_upto(cells, runtime, n);
    if k == n - 1 {
        assert(all[rest.len() as int] == row);
    } else {
        lemma_counts(cells, runtime, (n - 1) as nat, k);
        let i = choose|i: int| 0 <= i < rest.len() && rest[i] == row;
        assert(all[i] == row);
    }
}

/// Every kind of support that a runtime shows is counted, with how many cells show it.
pub proof fn lemma_every_kind_of_support_is_counted(
    cells: Seq<CellModel>,
    runtime: Seq<char>,
    i: int,
)
    requires
        0 <= i < cells.len() <= usize::MAX,
        cells[i].runtime == runtime,
    ensures
        ({
            let s = cells[i].support;
            counts_upto(cells, runtime, 4).contains(
                (
                    s,
                    below(cells.len()).filter(
                        |k: int| cells[k].runtime == runtime && cells[k].support == s,
                    ).len() as usize,
                ),
            )
        }),
{
    let s = cells[i].support;
    let f = |k: int| cells[k].runtime == runtime && cells[k].support == s;
    lemma_a_tally_counts_cells(cells, runtime, s, cells.len());
    assert(below(cells.len())[i] == i);
    below(cells.len()).lemma_filter_contains(f, i);
    assert(SUPPORTS[0] == Support::Supported && SUPPORTS[1] == Support::Unsupported && SUPPORTS[2]
        == Support::Rejected && SUPPORTS[3] == Support::Crashed);
    let k: int = match s {
        Support::Supported => 0,
        Support::Unsupported => 1,
        Support::Rejected => 2,
        Support::Crashed => 3,
    };
    lemma_counts(cells, runtime, 4, k);
}

/// Nothing has drifted since a census exactly where it records every present component in its
/// present version.
pub proof fn lemma_a_census_is_current(
    environment: Seq<(Seq<char>, Seq<char>)>,
    current: Seq<(Seq<char>, Seq<char>)>,
    n: nat,
)
    requires
        n <= current.len(),
    ensures
        drifts_upto(environment, current, n).len() == 0 <==> forall|i: int|
            0 <= i < n ==> unchanged(environment, (#[trigger] current[i]).0, current[i].1),
    decreases n,
{
    if n > 0 {
        lemma_a_census_is_current(environment, current, (n - 1) as nat);
        lemma_a_census_drifts(environment, current[n - 1].0, current[n - 1].1);
    }
}

} // verus!
