//! Cases that were judged and agreed: the counter-examples a claim about triggers must survive.
//!
//! A rule that describes every finding is easy to come by, and it means nothing until it has been
//! held against cases that did *not* diverge. Such a case counts only if it was drawn the same
//! way as the findings and seen on the same runtimes; otherwise a rule could separate the two
//! sets by saying which generator ran.

use vstd::prelude::*;

use crate::case::{CaseModel, DataModel, OnnxCase};
use crate::features::{data_has_boundary, data_has_inf, data_has_nan, data_has_negative_zero};
use crate::features::{data_has_subnormal, scan, ValueFlags};
use crate::order::{sort_strings, sort_texts};
use crate::text::{contains_text, hex, hex_text, holds_text, join, join_text, lowercase};
use crate::text::{lowercase_text, same_text, texts};

verus! {

// ---- where a negative came from ----

/// How hard a negative is to tell from a finding, hardest first.
#[derive(Debug, Clone, Copy, PartialEq, Eq, PartialOrd, Ord, Structural)]
pub enum Source {
    /// Rejected while a real finding was being minimised: one edit away from diverging.
    NearMiss,
    /// Built by hand to probe a hypothesis.
    Constructed,
    /// Sampled, and carrying something that a rule might key on.
    Interesting,
    /// Sampled, with nothing notable in it.
    Ordinary,
}

/// Every source, in order.
pub const SOURCES: [Source; 4] = [
    Source::NearMiss,
    Source::Constructed,
    Source::Interesting,
    Source::Ordinary,
];

impl Source {
    pub open spec fn text(self) -> Seq<char> {
        match self {
            Source::NearMiss => "near-miss"@,
            Source::Constructed => "constructed"@,
            Source::Interesting => "interesting"@,
            Source::Ordinary => "ordinary"@,
        }
    }

    /// A short name, fit for a directory.
    pub fn label(self) -> (r: &'static str)
        ensures
            r@ == self.text(),
    {
        match self {
            Source::NearMiss => "near-miss",
            Source::Constructed => "constructed",
            Source::Interesting => "interesting",
            Source::Ordinary => "ordinary",
        }
    }
}

/// Which generator a case came from, coarsely.
#[derive(Debug, Clone, Copy, PartialEq, Eq, Structural)]
pub enum Provenance {
    /// Bytes mutated by a fuzzer and decoded.
    Fuzzer,
    /// The seeded generator without its quantized axis.
    SeededDefault,
    /// The seeded generator with its quantized axis.
    SeededWide,
    /// Built by hand. Such a case belongs to no distribution.
    Constructed,
    /// Not recorded.
    Unknown,
}

impl Default for Provenance {
    fn default() -> (r: Self)
        ensures
            r == Provenance::Unknown,
    {
        Provenance::Unknown
    }
}

/// What a generator's description says about where its cases come from.
pub open spec fn provenance_of(description: Seq<char>) -> Provenance {
    if holds_text(description, "by hand"@) {
        Provenance::Constructed
    } else if holds_text(description, "float-elementwise="@) {
        if holds_text(description, "quantized=on"@) {
            Provenance::SeededWide
        } else {
            Provenance::SeededDefault
        }
    } else {
        Provenance::Unknown
    }
}

impl Provenance {
    pub open spec fn text(self) -> Seq<char> {
        match self {
            Provenance::Fuzzer => "fuzzer"@,
            Provenance::SeededDefault => "seeded-default"@,
            Provenance::SeededWide => "seeded-wide"@,
            Provenance::Constructed => "constructed"@,
            Provenance::Unknown => "unknown"@,
        }
    }

    /// Whether two sets of cases may be scored against each other. A hand-built case fits any
    /// set; one whose origin was never recorded fits none.
    pub open spec fn comparable(self, other: Provenance) -> bool {
        self != Provenance::Unknown && other != Provenance::Unknown && (self
            == Provenance::Constructed || other == Provenance::Constructed || self == other)
    }

    pub fn label(self) -> (r: &'static str)
        ensures
            r@ == self.text(),
    {
        match self {
            Provenance::Fuzzer => "fuzzer",
            Provenance::SeededDefault => "seeded-default",
            Provenance::SeededWide => "seeded-wide",
            Provenance::Constructed => "constructed",
            Provenance::Unknown => "unknown",
        }
    }

    /// What a generator's description says about where its cases come from. Anything that is not
    /// recognised is unknown rather than guessed at.
    pub fn from_generator(description: &str) -> (r: Self)
        ensures
            r == provenance_of(description@),
    {
        if contains_text(description, "by hand") {
            Provenance::Constructed
        } else if contains_text(description, "float-elementwise=") {
            if contains_text(description, "quantized=on") {
                Provenance::SeededWide
            } else {
                Provenance::SeededDefault
            }
        } else {
            Provenance::Unknown
        }
    }

    /// Whether two sets of cases may be scored against each other.
    pub fn comparable_with(self, other: Self) -> (r: bool)
        ensures
            r == self.comparable(other),
    {
        match (self, other) {
            (Provenance::Unknown, _) | (_, Provenance::Unknown) => false,
            (Provenance::Constructed, _) | (_, Provenance::Constructed) => true,
            (a, b) => a == b,
        }
    }
}

/// Whether two sets may be scored against each other does not depend on which is called first.
pub proof fn lemma_comparability_is_symmetric(a: Provenance, b: Provenance)
    ensures
        a.comparable(b) == b.comparable(a),
        !Provenance::Unknown.comparable(b),
{
}

/// The conditions under which a set of cases was observed.
#[derive(Debug, PartialEq, Eq)]
pub struct SamplingContext {
    /// The generator's description, verbatim.
    pub generator: String,
    /// The runtimes, in order.
    pub runtimes: Vec<String>,
}

impl SamplingContext {
    /// The conditions given by a generator's description and the runtimes' names. Names are
    /// sorted, so that the order in which they were listed makes no difference.
    pub fn new(generator: &str, runtimes: &[&str]) -> (r: Self)
        ensures
            r.generator@ == generator@,
            texts(r.runtimes@) == sort_texts(Seq::new(runtimes@.len(), |i: int| runtimes@[i]@)),
    {
        let mut names: Vec<String> = Vec::new();
        let mut i: usize = 0;
        while i < runtimes.len()
            invariant
                i <= runtimes.len(),
                names.len() == i,
                forall|k: int| 0 <= k < i ==> (#[trigger] names@[k])@ == runtimes@[k]@,
            decreases runtimes.len() - i,
        {
            names.push(runtimes[i].to_owned());
            i += 1;
        }
        assert(texts(names@) =~= Seq::new(runtimes@.len(), |i: int| runtimes@[i]@));
        SamplingContext { generator: generator.to_owned(), runtimes: sort_strings(&names) }
    }

    /// Where the cases come from.
    pub fn provenance(&self) -> (r: Provenance)
        ensures
            r == provenance_of(self.generator@),
    {
        Provenance::from_generator(self.generator.as_str())
    }
}

// ---- negatives ----

/// A case that agreed, and where it came from.
#[derive(Debug)]
pub struct Negative {
    pub case: OnnxCase,
    pub source: Source,
    /// Which generator produced it, coarsely.
    pub provenance: Provenance,
    /// The generator's description, verbatim. This and not the coarse class is what is matched.
    pub generator: String,
    /// The runtimes it agreed on, in order. Empty means that nobody recorded them.
    pub runtimes: Vec<String>,
}

/// What a [`Negative`] holds.
#[verifier::ext_equal]
pub struct NegativeModel {
    pub case: CaseModel,
    pub source: Source,
    pub provenance: Provenance,
    pub generator: Seq<char>,
    pub runtimes: Seq<Seq<char>>,
}

impl View for Negative {
    type V = NegativeModel;

    open spec fn view(&self) -> NegativeModel {
        NegativeModel {
            case: self.case@,
            source: self.source,
            provenance: self.provenance,
            generator: self.generator@,
            runtimes: texts(self.runtimes@),
        }
    }
}

/// The models of a sequence of negatives.
pub open spec fn negatives_model(v: Seq<Negative>) -> Seq<NegativeModel> {
    Seq::new(v.len(), |i: int| v[i]@)
}

/// A copy of a list of names.
pub fn clone_names(v: &Vec<String>) -> (r: Vec<String>)
    ensures
        texts(r@) == texts(v@),
{
    let mut out: Vec<String> = Vec::new();
    let mut i: usize = 0;
    while i < v.len()
        invariant
            i <= v.len(),
            out.len() == i,
            forall|k: int| 0 <= k < i ==> (#[trigger] out@[k])@ == v@[k]@,
        decreases v.len() - i,
    {
        out.push(v[i].clone());
        i += 1;
    }
    assert(texts(out@) =~= texts(v@));
    out
}

/// Whether two lists hold the same names in the same order.
pub fn same_names(a: &Vec<String>, b: &Vec<String>) -> (r: bool)
    ensures
        r == (texts(a@) == texts(b@)),
{
    if a.len() != b.len() {
        assert(texts(a@).len() != texts(b@).len());
        return false;
    }
    let mut i: usize = 0;
    while i < a.len()
        invariant
            i <= a.len() == b.len(),
            forall|k: int| 0 <= k < i ==> texts(a@)[k] == texts(b@)[k],
        decreases a.len() - i,
    {
        if !same_text(a[i].as_str(), b[i].as_str()) {
            assert(texts(a@)[i as int] != texts(b@)[i as int]);
            return false;
        }
        i += 1;
    }
    assert(texts(a@) =~= texts(b@));
    true
}

impl Negative {
    /// The record of a case that agreed under the given conditions.
    pub fn record(case: &OnnxCase, source: Source, context: &SamplingContext) -> (r: Self)
        ensures
            r@ == (NegativeModel {
                case: case@,
                source,
                provenance: provenance_of(context.generator@),
                generator: context.generator@,
                runtimes: texts(context.runtimes@),
            }),
    {
        Negative {
            case: case.clone(),
            source,
            provenance: context.provenance(),
            generator: context.generator.clone(),
            runtimes: clone_names(&context.runtimes),
        }
    }

    /// The record of a bare case, of which only the case was kept. It says nothing of the
    /// runtimes that agreed on it, so no pool will take it.
    pub fn bare(case: OnnxCase) -> (r: Self)
        ensures
            r@ == (NegativeModel {
                case: case@,
                source: Source::Constructed,
                provenance: Provenance::Constructed,
                generator: Seq::empty(),
                runtimes: Seq::empty(),
            }),
    {
        let r: Negative = Negative {
            case,
            source: Source::Constructed,
            provenance: Provenance::Constructed,
            generator: String::new(),
            runtimes: Vec::new(),
        };
        assert(r@.runtimes =~= Seq::empty());
        r
    }
}

/// Whether a tensor holds a value that a rule might key on: a special value, or one at the end of
/// its type's range.
pub open spec fn data_is_interesting(d: DataModel) -> bool {
    data_has_nan(d) || data_has_inf(d) || data_has_subnormal(d) || data_has_negative_zero(d)
        || data_has_boundary(d)
}

/// Whether a case carries anything that a rule about awkward values might key on.
///
/// Shapes, operators and attributes are left out on purpose: choosing negatives by what the rules
/// will be made of would select cases that confirm what is already believed.
pub fn is_interesting(case: &OnnxCase) -> (r: bool)
    ensures
        r == exists|i: int|
            0 <= i < case@.inputs.len() && data_is_interesting((#[trigger] case@.inputs[i]).data),
{
    let mut i: usize = 0;
    while i < case.inputs.len()
        invariant
            i <= case.inputs.len(),
            forall|k: int| 0 <= k < i ==> !data_is_interesting((#[trigger] case@.inputs[k]).data),
        decreases case.inputs.len() - i,
    {
        let flags: ValueFlags = scan(&case.inputs[i].data);
        assert(case@.inputs[i as int].data == case.inputs@[i as int].data@);
        if flags.nan || flags.inf || flags.subnormal || flags.negative_zero || flags.boundary {
            return true;
        }
        i += 1;
    }
    false
}

// ---- counting by source ----

/// Whether a case is that of one of some negatives.
pub open spec fn among(v: Seq<NegativeModel>, c: CaseModel) -> bool {
    exists|i: int| 0 <= i < v.len() && (#[trigger] v[i]).case == c
}

/// The sources of a sequence of negatives.
pub open spec fn sources_of(v: Seq<NegativeModel>) -> Seq<Source> {
    Seq::new(v.len(), |i: int| v[i].source)
}

/// How many of the first `n` negatives come from a source.
pub open spec fn total_of(sources: Seq<Source>, source: Source, n: nat) -> nat
    decreases n,
{
    if n == 0 {
        0
    } else {
        total_of(sources, source, (n - 1) as nat) + if sources[n - 1] == source {
            1nat
        } else {
            0nat
        }
    }
}

/// How many of the first `n` negatives come from a source and are hit.
pub open spec fn hits_of(sources: Seq<Source>, hits: Seq<bool>, source: Source, n: nat) -> nat
    decreases n,
{
    if n == 0 {
        0
    } else {
        hits_of(sources, hits, source, (n - 1) as nat) + if sources[n - 1] == source && hits[n
            - 1] {
            1nat
        } else {
            0nat
        }
    }
}

/// For each of the first `n` sources that occurs: how many negatives are hit, and of how many.
pub open spec fn breakdown_upto(sources: Seq<Source>, hits: Seq<bool>, n: nat) -> Seq<
    (Source, usize, usize),
>
    decreases n,
{
    if n == 0 {
        Seq::empty()
    } else {
        let rest = breakdown_upto(sources, hits, (n - 1) as nat);
        let source = SOURCES[n - 1];
        let total = total_of(sources, source, sources.len());
        if total == 0 {
            rest
        } else {
            rest.push(
                (source, hits_of(sources, hits, source, sources.len()) as usize, total as usize),
            )
        }
    }
}

/// For each source that occurs: how many negatives are hit, and of how many.
pub open spec fn breakdown_of(sources: Seq<Source>, hits: Seq<bool>) -> Seq<
    (Source, usize, usize),
> {
    breakdown_upto(sources, hits, 4)
}

/// For each of the first `n` sources that occurs, how many negatives come from it.
pub open spec fn totals_upto(sources: Seq<Source>, n: nat) -> Seq<(Source, usize)>
    decreases n,
{
    if n == 0 {
        Seq::empty()
    } else {
        let rest = totals_upto(sources, (n - 1) as nat);
        let source = SOURCES[n - 1];
        let total = total_of(sources, source, sources.len());
        if total == 0 {
            rest
        } else {
            rest.push((source, total as usize))
        }
    }
}

/// For each source that occurs: how many negatives are hit, and of how many. It is never summed:
/// surviving twelve near-misses and surviving five hundred ordinary cases are different claims.
pub fn breakdown(sources: &Vec<Source>, hits: &Vec<bool>) -> (r: Vec<(Source, usize, usize)>)
    requires
        sources.len() == hits.len(),
    ensures
        r@ == breakdown_of(sources@, hits@),
{
    let mut out: Vec<(Source, usize, usize)> = Vec::new();
    let mut k: usize = 0;
    while k < 4
        invariant
            k <= 4,
            SOURCES@.len() == 4,
            sources.len() == hits.len(),
            out@ == breakdown_upto(sources@, hits@, k as nat),
        decreases 4 - k,
    {
        let source: Source = SOURCES[k];
        let mut total: usize = 0;
        let mut hit: usize = 0;
        let mut i: usize = 0;
        while i < sources.len()
            invariant
                i <= sources.len(),
                sources.len() == hits.len(),
                total == total_of(sources@, source, i as nat),
                hit == hits_of(sources@, hits@, source, i as nat),
                total <= i,
                hit <= i,
            decreases sources.len() - i,
        {
            if sources[i] == source {
                total += 1;
                if hits[i] {
                    hit += 1;
                }
            }
            i += 1;
        }
        if total > 0 {
            out.push((source, hit, total));
        }
        k += 1;
    }
    out
}

/// How many negatives of each source a set holds, sources that do not occur left out.
pub fn by_source(negatives: &[Negative]) -> (r: Vec<(Source, usize)>)
    ensures
        r@ == totals_upto(sources_of(negatives_model(negatives@)), 4),
{
    let ghost sources = sources_of(negatives_model(negatives@));
    let mut out: Vec<(Source, usize)> = Vec::new();
    let mut k: usize = 0;
    while k < 4
        invariant
            k <= 4,
            SOURCES@.len() == 4,
            sources == sources_of(negatives_model(negatives@)),
            out@ == totals_upto(sources, k as nat),
        decreases 4 - k,
    {
        let source: Source = SOURCES[k];
        let mut total: usize = 0;
        let mut i: usize = 0;
        while i < negatives.len()
            invariant
                i <= negatives.len(),
                sources == sources_of(negatives_model(negatives@)),
                total == total_of(sources, source, i as nat),
                total <= i,
            decreases negatives.len() - i,
        {
            assert(sources[i as int] == negatives@[i as int].source);
            if negatives[i].source == source {
                total += 1;
            }
            i += 1;
        }
        if total > 0 {
            out.push((source, total));
        }
        k += 1;
    }
    out
}

// ---- pools ----

/// Negatives that a rule can be scored against.
#[derive(Debug)]
pub struct Pool {
    negatives: Vec<Negative>,
}

impl View for Pool {
    type V = Seq<NegativeModel>;

    closed spec fn view(&self) -> Seq<NegativeModel> {
        negatives_model(self.negatives@)
    }
}

/// The name of the file that a case is kept in: it follows from the case, so that a case seen twice
/// is kept once.
pub open spec fn file_text(c: CaseModel, digest: u64) -> Seq<char> {
    "neg-"@ + lowercase_text(c.op.text()) + "-"@ + hex_text(digest as nat, 1) + ".json"@
}

/// The name of the file that a case with a digest is kept in.
pub fn file_name(case: &OnnxCase, digest: u64) -> (r: String)
    ensures
        r@ == file_text(case@, digest),
{
    let mut out: String = "neg-".to_owned();
    out.append(lowercase(case.op.onnx_name()).as_str());
    out.append("-");
    out.append(hex(digest, 1).as_str());
    out.append(".json");
    out
}

/// Why a pool could not be made.
#[derive(Debug, PartialEq, Eq)]
pub enum PoolError {
    /// The findings and the negatives came from different generators.
    DistributionMismatch { positives: Provenance, negatives: Vec<Provenance> },
    /// The negatives were observed on other runtimes than the findings.
    BackendMismatch { positives: Vec<String>, negatives: Vec<String> },
    /// There is nothing to score against.
    Empty,
}

/// How the reason is written.
pub open spec fn pool_error_text(e: PoolError) -> Seq<char> {
    match e {
        PoolError::DistributionMismatch { positives, negatives } => "findings came from "@
            + positives.text() + " but the negatives are "@ + join_text(
            Seq::new(negatives@.len(), |i: int| negatives@[i].text()),
            ", "@,
        )
            + " — scoring across these would learn which generator produced a case, not what triggers a bug"@,
        PoolError::BackendMismatch { positives, negatives } => "findings were observed on ["@
            + join_text(texts(positives@), ", "@)
            + "] but every negative was observed on something else (e.g. ["@ + join_text(
            texts(negatives@),
            ", "@,
        ) + "]) — a case that agreed on one set of runtimes says nothing about another"@,
        PoolError::Empty => "no negatives; a rule surviving none has survived nothing"@,
    }
}

impl PoolError {
    /// The reason in words.
    pub fn describe(&self) -> (r: String)
        ensures
            r@ == pool_error_text(*self),
    {
        match self {
            PoolError::DistributionMismatch { positives, negatives } => {
                let mut labels: Vec<String> = Vec::new();
                let mut i: usize = 0;
                while i < negatives.len()
                    invariant
                        i <= negatives.len(),
                        labels.len() == i,
                        forall|k: int| 0 <= k < i ==> (#[trigger] labels@[k])@ == negatives@[k].text(),
                    decreases negatives.len() - i,
                {
                    labels.push(negatives[i].label().to_owned());
                    i += 1;
                }
                assert(texts(labels@) =~= Seq::new(
                    negatives@.len(),
                    |i: int| negatives@[i].text(),
                ));
                let mut out: String = "findings came from ".to_owned();
                out.append(positives.label());
                out.append(" but the negatives are ");
                out.append(join(&labels, ", ").as_str());
                out.append(
                    " — scoring across these would learn which generator produced a case, not what triggers a bug",
                );
                out
            },
            PoolError::BackendMismatch { positives, negatives } => {
                let mut out: String = "findings were observed on [".to_owned();
                out.append(join(positives, ", ").as_str());
                out.append("] but every negative was observed on something else (e.g. [");
                out.append(join(negatives, ", ").as_str());
                out.append(
                    "]) — a case that agreed on one set of runtimes says nothing about another",
                );
                out
            },
            PoolError::Empty => "no negatives; a rule surviving none has survived nothing".to_owned(),
        }
    }
}

/// Whether a negative was observed on the given runtimes.
pub open spec fn seen_on(runtimes: Seq<Seq<char>>) -> spec_fn(NegativeModel) -> bool {
    |n: NegativeModel| n.runtimes.len() > 0 && n.runtimes == runtimes
}

/// Whether a negative may be scored against findings of a generator: it is hand-built, or it was
/// drawn from the very same description.
pub open spec fn drawn_like(generator: Seq<char>) -> spec_fn(NegativeModel) -> bool {
    |n: NegativeModel|
        match n.provenance {
            Provenance::Constructed => true,
            Provenance::Unknown => false,
            _ => n.generator == generator,
        }
}

impl Pool {
    /// The negatives that may be scored against findings observed under the given conditions.
    ///
    /// Two checks, in order: the runtimes must be the same, without exception, and then the
    /// generator must be the same, unless the case was built by hand. A set that ends up empty is
    /// an error, because a rule that is held against nothing survives it.
    pub fn matched(all: Vec<Negative>, positives: &SamplingContext) -> (r: Result<Self, PoolError>)
        ensures
            ({
                let same = negatives_model(all@).filter(seen_on(texts(positives.runtimes@)));
                let kept = same.filter(drawn_like(positives.generator@));
                match r {
                    Ok(pool) => kept.len() > 0 && pool@ == kept,
                    Err(PoolError::Empty) => same.len() > 0 && kept.len() == 0,
                    Err(PoolError::BackendMismatch { positives: p, negatives: n }) => {
                        &&& same.len() == 0
                        &&& texts(p@) == texts(positives.runtimes@)
                        &&& texts(n@) == (if all@.len() > 0 {
                            texts(all@[0].runtimes@)
                        } else {
                            Seq::empty()
                        })
                    },
                    Err(PoolError::DistributionMismatch { .. }) => false,
                }
            }),
    {
        let ghost model = negatives_model(all@);
        let ghost seen = seen_on(texts(positives.runtimes@));
        let ghost like = drawn_like(positives.generator@);
        let first: Vec<String> = if all.len() > 0 {
            clone_names(&all[0].runtimes)
        } else {
            Vec::new()
        };
        assert(all@.len() == 0 ==> texts(first@) =~= Seq::empty());
        let mut same: bool = false;
        let mut kept: Vec<Negative> = Vec::new();
        proof {
            reveal(Seq::filter);
            assert(model.take(0) =~= Seq::empty());
            assert(negatives_model(kept@) =~= Seq::empty());
        }
        for n in it: all
            invariant
                it.seq() == all@,
                model == negatives_model(all@),
                seen == seen_on(texts(positives.runtimes@)),
                like == drawn_like(positives.generator@),
                same == (model.take(it.index() as int).filter(seen).len() > 0),
                negatives_model(kept@) == model.take(it.index() as int).filter(seen).filter(like),
        {
            let ghost i = it.index() as int;
            let ghost before = negatives_model(kept@);
            proof {
                assert(model[i] == n@);
                assert(model.take(i + 1) =~= model.take(i).push(n@));
                model.take(i).lemma_filter_push(n@, seen);
                model.take(i).filter(seen).lemma_filter_push(n@, like);
            }
            let on_same: bool = n.runtimes.len() > 0 && same_names(
                &n.runtimes,
                &positives.runtimes,
            );
            assert(on_same == seen(n@));
            if on_same {
                same = true;
                let alike: bool = match n.provenance {
                    Provenance::Constructed => true,
                    Provenance::Unknown => false,
                    _ => same_text(n.generator.as_str(), positives.generator.as_str()),
                };
                assert(alike == like(n@));
                if alike {
                    kept.push(n);
                    assert(negatives_model(kept@) =~= before.push(n@));
                }
            }
        }
        assert(model.take(model.len() as int) =~= model);
        if !same {
            return Err(
                PoolError::BackendMismatch {
                    positives: clone_names(&positives.runtimes),
                    negatives: first,
                },
            );
        }
        assert(kept@.len() == negatives_model(kept@).len());
        if kept.len() == 0 {
            return Err(PoolError::Empty);
        }
        Ok(Pool { negatives: kept })
    }

    /// Every negative, whatever its origin. For inspection, never for scoring.
    pub fn unchecked(all: Vec<Negative>) -> (r: Self)
        ensures
            r@ == negatives_model(all@),
    {
        Pool { negatives: all }
    }

    pub fn len(&self) -> (r: usize)
        ensures
            r == self@.len(),
    {
        self.negatives.len()
    }

    pub fn is_empty(&self) -> (r: bool)
        ensures
            r == (self@.len() == 0),
    {
        self.negatives.len() == 0
    }

    /// The negatives themselves.
    pub fn negatives(&self) -> (r: &[Negative])
        ensures
            negatives_model(r@) == self@,
    {
        self.negatives.as_slice()
    }

    /// The cases.
    pub fn cases(&self) -> (r: Vec<&OnnxCase>)
        ensures
            r.len() == self@.len(),
            forall|i: int| 0 <= i < r.len() ==> (#[trigger] r@[i])@ == self@[i].case,
    {
        let mut out: Vec<&OnnxCase> = Vec::new();
        let mut i: usize = 0;
        while i < self.negatives.len()
            invariant
                i <= self.negatives.len(),
                out.len() == i,
                forall|k: int| 0 <= k < i ==> (#[trigger] out@[k])@ == self@[k].case,
            decreases self.negatives.len() - i,
        {
            out.push(&self.negatives[i].case);
            i += 1;
        }
        out
    }

    /// How many negatives of each source a rule fails to exclude, and of how many. The rule is
    /// asked once about each case.
    pub fn matched_by_source<F: Fn(&OnnxCase) -> bool>(&self, matches: F) -> (r: Vec<
        (Source, usize, usize),
    >)
        requires
            forall|c: &OnnxCase|
                among(self@, c@) ==> #[trigger] call_requires(matches, (c,)),
        ensures
            exists|hits: Seq<bool>|
                hits.len() == self@.len() && r@ == #[trigger] breakdown_of(
                    sources_of(self@),
                    hits,
                ) && forall|i: int|
                    0 <= i < hits.len() ==> self.answered(matches, i, #[trigger] hits[i]),
    {
        let mut sources: Vec<Source> = Vec::new();
        let mut hits: Vec<bool> = Vec::new();
        let mut i: usize = 0;
        while i < self.negatives.len()
            invariant
                i <= self.negatives.len(),
                forall|c: &OnnxCase|
                    among(self@, c@) ==> #[trigger] call_requires(matches, (c,)),
                sources.len() == i,
                hits.len() == i,
                forall|k: int| 0 <= k < i ==> #[trigger] sources@[k] == self@[k].source,
                forall|k: int| 0 <= k < i ==> self.answered(matches, k, #[trigger] hits@[k]),
            decreases self.negatives.len() - i,
        {
            sources.push(self.negatives[i].source);
            assert(self@[i as int].case == self.negatives@[i as int].case@);
            assert(among(self@, self.negatives@[i as int].case@));
            hits.push(matches(&self.negatives[i].case));
            i += 1;
        }
        assert(sources@ =~= sources_of(self@));
        breakdown(&sources, &hits)
    }

    /// Whether a rule may have given an answer about the case at a position.
    pub closed spec fn answered<F: Fn(&OnnxCase) -> bool>(&self, matches: F, i: int, hit: bool) -> bool {
        call_ensures(matches, (&self.negatives@[i].case,), hit)
    }
}

/// No rule is ever scored against a case that was seen on other runtimes, drawn from another
/// generator, or of unknown origin.
pub proof fn lemma_a_pool_is_comparable(all: Seq<NegativeModel>, positives: &SamplingContext, i: int)
    requires
        ({
            let kept = all.filter(seen_on(texts(positives.runtimes@))).filter(
                drawn_like(positives.generator@),
            );
            0 <= i < kept.len()
        }),
    ensures
        ({
            let kept = all.filter(seen_on(texts(positives.runtimes@))).filter(
                drawn_like(positives.generator@),
            );
            &&& kept[i].runtimes == texts(positives.runtimes@)
            &&& kept[i].runtimes.len() > 0
            &&& kept[i].provenance != Provenance::Unknown
            &&& kept[i].provenance == Provenance::Constructed || kept[i].generator
                == positives.generator@
        }),
{
    let same = all.filter(seen_on(texts(positives.runtimes@)));
    let kept = same.filter(drawn_like(positives.generator@));
    same.lemma_filter_pred(drawn_like(positives.generator@), i);
    assert(kept.contains(kept[i]));
    same.lemma_filter_contains_rev(drawn_like(positives.generator@), kept[i]);
    let j = choose|j: int| 0 <= j < same.len() && same[j] == kept[i];
    all.lemma_filter_pred(seen_on(texts(positives.runtimes@)), j);
}

} // verus!
