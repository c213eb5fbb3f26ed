//! What the runtimes are fed, and what is made of what they give back.
//!
//! Every failure is a value. A runtime that fails while it is given a case has said something about
//! the case, and the step at which it failed says what. What a runtime does, it does behind a
//! function that the caller hands in and that also catches what the runtime panics with; which model
//! and which tensors that function is given, and what its result amounts to, is settled here.

use vstd::prelude::*;

use crate::case::{data_bytes, data_of_bytes, lemma_bytes_round_trip, ElemType, InputRole};
use crate::case::{CaseModel, OnnxCase, TensorData};
use crate::case::{tensors_model, TensorModel, TensorValue};
use crate::model::{build_bytes, model_of};
use crate::ops::{copy_dims, output_fits};
use crate::outcome::{OnnxOutcome, OutcomeModel};

verus! {

/// ONNX Runtime, the mature one.
#[derive(Debug, Clone, Copy)]
pub struct OrtRuntime;

/// `tract`.
#[derive(Debug, Clone, Copy)]
pub struct TractRuntime;

/// `candle-onnx`.
#[derive(Debug, Clone, Copy)]
pub struct CandleRuntime;

pub const ORT_NAME: &'static str = "onnxruntime";

pub const TRACT_NAME: &'static str = "tract";

pub const CANDLE_NAME: &'static str = "candle";

impl OrtRuntime {
    pub fn name(&self) -> (r: &'static str)
        ensures
            r@ == ORT_NAME@,
    {
        ORT_NAME
    }
}

impl TractRuntime {
    pub fn name(&self) -> (r: &'static str)
        ensures
            r@ == TRACT_NAME@,
    {
        TRACT_NAME
    }
}

impl CandleRuntime {
    pub fn name(&self) -> (r: &'static str)
        ensures
            r@ == CANDLE_NAME@,
    {
        CANDLE_NAME
    }
}

/// The runtimes that run inside the process, by name.
pub fn compiled_runtime_names() -> (r: Vec<&'static str>)
    ensures
        r.len() == 3,
        r@[0]@ == ORT_NAME@,
        r@[1]@ == TRACT_NAME@,
        r@[2]@ == CANDLE_NAME@,
{
    vec![ORT_NAME, TRACT_NAME, CANDLE_NAME]
}

/// No two runtimes share a name.
pub proof fn lemma_names_tell_runtimes_apart()
    ensures
        ORT_NAME@ != TRACT_NAME@,
        ORT_NAME@ != CANDLE_NAME@,
        TRACT_NAME@ != CANDLE_NAME@,
{
    reveal_strlit("onnxruntime");
    reveal_strlit("tract");
    reveal_strlit("candle");
    assert(ORT_NAME@.len() == 11 && TRACT_NAME@.len() == 5 && CANDLE_NAME@.len() == 6);
}

// ---- what a runtime is fed ----

/// A tensor as a runtime is fed it: bits and no numbers.
#[derive(Debug, PartialEq, Eq)]
pub struct RawTensor {
    pub name: String,
    pub elem_type: ElemType,
    pub dims: Vec<i64>,
    pub bytes: Vec<u8>,
}

/// What a [`RawTensor`] holds.
#[verifier::ext_equal]
pub struct RawModel {
    pub name: Seq<char>,
    pub elem_type: ElemType,
    pub dims: Seq<i64>,
    pub bytes: Seq<u8>,
}

impl View for RawTensor {
    type V = RawModel;

    open spec fn view(&self) -> RawModel {
        RawModel {
            name: self.name@,
            elem_type: self.elem_type,
            dims: self.dims@,
            bytes: self.bytes@,
        }
    }
}

/// The models of a sequence of tensors.
pub open spec fn raws_model(v: Seq<RawTensor>) -> Seq<RawModel> {
    Seq::new(v.len(), |i: int| v[i]@)
}

/// A tensor as a runtime is fed it.
pub open spec fn raw_of(t: TensorModel) -> RawModel {
    RawModel {
        name: t.name,
        elem_type: t.elem_type(),
        dims: t.dims,
        bytes: data_bytes(t.data),
    }
}

/// The inputs that a case feeds, in order. A constant is part of the model and is not fed again.
pub open spec fn fed_of(inputs: Seq<TensorModel>) -> Seq<TensorModel> {
    inputs.filter(|t: TensorModel| t.initializer() == false)
}

/// Tensors as a runtime is fed them.
pub open spec fn raws_of(fed: Seq<TensorModel>) -> Seq<RawModel> {
    Seq::new(fed.len(), |i: int| raw_of(fed[i]))
}

/// What a runtime is fed for a case, in the order in which the model declares it.
pub fn feeds(case: &OnnxCase) -> (r: Vec<RawTensor>)
    ensures
        raws_model(r@) == raws_of(fed_of(case@.inputs)),
{
    let fed: Vec<&TensorValue> = case.fed_inputs();
    let ghost all = fed_of(case@.inputs);
    let mut out: Vec<RawTensor> = Vec::new();
    assert(Seq::new(fed@.len(), |i: int| fed@[i]@).len() == fed@.len());
    while out.len() < fed.len()
        invariant
            out.len() <= fed.len(),
            all.len() == fed.len(),
            Seq::new(fed@.len(), |i: int| fed@[i]@) == all,
            forall|k: int| 0 <= k < out.len() ==> (#[trigger] out@[k])@ == raw_of(all[k]),
        decreases fed.len() - out.len(),
    {
        let i: usize = out.len();
        assert(all[i as int] == fed@[i as int]@);
        out.push(
            RawTensor {
                name: fed[i].name.as_str().to_owned(),
                elem_type: fed[i].elem_type(),
                dims: copy_dims(&fed[i].dims),
                bytes: fed[i].data.to_le_bytes(),
            },
        );
    }
    assert(raws_model(out@) =~= raws_of(all));
    out
}

/// Whether `candle` has a type to hold elements of a type in.
pub open spec fn candle_holds(t: ElemType) -> bool {
    t == ElemType::F32 || t == ElemType::F64 || t == ElemType::I64 || t == ElemType::U8
}

/// The position of the first fed tensor that `candle` cannot hold, or their number.
pub open spec fn first_unheld(fed: Seq<TensorModel>, at: int) -> int
    decreases fed.len() - at,
{
    if at >= fed.len() || !candle_holds(fed[at].elem_type()) {
        at
    } else {
        first_unheld(fed, at + 1)
    }
}

/// What is said of an element type that `candle` cannot hold.
pub open spec fn unheld_text(t: ElemType) -> Seq<char> {
    "candle has no DType for "@ + t.text()
}

/// What `candle` is fed for a case, or the gap where it cannot hold one of the tensors. That is a
/// limit of the runtime and no refusal.
pub fn candle_feeds(case: &OnnxCase) -> (r: Result<Vec<RawTensor>, OnnxOutcome>)
    ensures
        ({
            let fed = fed_of(case@.inputs);
            let at = first_unheld(fed, 0);
            match r {
                Ok(v) => at >= fed.len() && raws_model(v@) == raws_of(fed),
                Err(o) => at < fed.len() && o@ == OutcomeModel::Unsupported(
                    unheld_text(fed[at].elem_type()),
                ),
            }
        }),
{
    let ghost fed = fed_of(case@.inputs);
    let all: Vec<RawTensor> = feeds(case);
    assert(raws_model(all@).len() == all@.len());
    let mut i: usize = 0;
    while i < all.len()
        invariant
            i <= all.len(),
            fed == fed_of(case@.inputs),
            fed.len() == all.len(),
            raws_model(all@) == raws_of(fed),
            first_unheld(fed, i as int) == first_unheld(fed, 0),
        decreases all.len() - i,
    {
        let t: ElemType = all[i].elem_type;
        assert(raws_model(all@)[i as int] == all@[i as int]@);
        assert(t == fed[i as int].elem_type());
        match t {
            ElemType::F32 | ElemType::F64 | ElemType::I64 | ElemType::U8 => {},
            _ => {
                let mut reason: String = "candle has no DType for ".to_owned();
                reason.append(t.name());
                return Err(OnnxOutcome::Unsupported { reason });
            },
        }
        i += 1;
    }
    Ok(all)
}

// ---- what a runtime gives back ----

/// The step at which a runtime failed.
#[derive(Debug, PartialEq, Eq)]
pub enum Stage {
    SessionBuilder,
    OptimizationLevel,
    LoadingModel,
    ParsingModel,
    BuildingInput { name: String },
    Running,
    Flattening,
    Extracting,
    ExtractingOutput { label: String },
    ExtractingAfterCast { label: String },
    ResolvingShape { label: String },
}

/// What a [`Stage`] holds.
#[verifier::ext_equal]
pub enum StageModel {
    SessionBuilder,
    OptimizationLevel,
    LoadingModel,
    ParsingModel,
    BuildingInput(Seq<char>),
    Running,
    Flattening,
    Extracting,
    ExtractingOutput(Seq<char>),
    ExtractingAfterCast(Seq<char>),
    ResolvingShape(Seq<char>),
}

impl View for Stage {
    type V = StageModel;

    open spec fn view(&self) -> StageModel {
        match self {
            Stage::SessionBuilder => StageModel::SessionBuilder,
            Stage::OptimizationLevel => StageModel::OptimizationLevel,
            Stage::LoadingModel => StageModel::LoadingModel,
            Stage::ParsingModel => StageModel::ParsingModel,
            Stage::BuildingInput { name } => StageModel::BuildingInput(name@),
            Stage::Running => StageModel::Running,
            Stage::Flattening => StageModel::Flattening,
            Stage::Extracting => StageModel::Extracting,
            Stage::ExtractingOutput { label } => StageModel::ExtractingOutput(label@),
            Stage::ExtractingAfterCast { label } => StageModel::ExtractingAfterCast(label@),
            Stage::ResolvingShape { label } => StageModel::ResolvingShape(label@),
        }
    }
}

impl StageModel {
    /// What a report calls the step.
    pub open spec fn text(self) -> Seq<char> {
        match self {
            StageModel::SessionBuilder => "session builder"@,
            StageModel::OptimizationLevel => "setting optimization level"@,
            StageModel::LoadingModel => "loading model"@,
            StageModel::ParsingModel => "parsing model"@,
            StageModel::BuildingInput(name) => "building input "@ + name,
            StageModel::Running => "running"@,
            StageModel::Flattening => "flattening output"@,
            StageModel::Extracting => "extracting output"@,
            StageModel::ExtractingOutput(label) => "extracting output "@ + label,
            StageModel::ExtractingAfterCast(label) => "extracting output "@ + label
                + " after cast"@,
            StageModel::ResolvingShape(label) => "output "@ + label
                + " is a symbolic shape that does not resolve to concrete integers"@,
        }
    }
}

fn stage_text(stage: &Stage) -> (r: String)
    ensures
        r@ == stage@.text(),
{
    match stage {
        Stage::SessionBuilder => "session builder".to_owned(),
        Stage::OptimizationLevel => "setting optimization level".to_owned(),
        Stage::LoadingModel => "loading model".to_owned(),
        Stage::ParsingModel => "parsing model".to_owned(),
        Stage::BuildingInput { name } => {
            let mut out: String = "building input ".to_owned();
            out.append(name.as_str());
            out
        },
        Stage::Running => "running".to_owned(),
        Stage::Flattening => "flattening output".to_owned(),
        Stage::Extracting => "extracting output".to_owned(),
        Stage::ExtractingOutput { label } => {
            let mut out: String = "extracting output ".to_owned();
            out.append(label.as_str());
            out
        },
        Stage::ExtractingAfterCast { label } => {
            let mut out: String = "extracting output ".to_owned();
            out.append(label.as_str());
            out.append(" after cast");
            out
        },
        Stage::ResolvingShape { label } => {
            let mut out: String = "output ".to_owned();
            out.append(label.as_str());
            out.append(" is a symbolic shape that does not resolve to concrete integers");
            out
        },
    }
}

/// What is said of a failure at a step.
pub open spec fn failure_text(stage: StageModel, error: Seq<char>) -> Seq<char> {
    stage.text() + ": "@ + error
}

/// A runtime that failed at a step. A returned error accuses nobody: whether it is a gap or a
/// refusal of this very case is not known here.
pub fn failed_at(stage: &Stage, error: &str) -> (r: OnnxOutcome)
    ensures
        r@ == OutcomeModel::Rejected(failure_text(stage@, error@)),
{
    let mut detail: String = stage_text(stage);
    detail.append(": ");
    detail.append(error);
    OnnxOutcome::Rejected { detail }
}

/// What is said of a panic.
pub open spec fn panic_text(message: Option<String>) -> Seq<char> {
    match message {
        Some(m) => m@,
        None => "panicked with a non-string payload"@,
    }
}

/// A runtime that panicked, with what it said if that was a text. A panic accuses its runtime.
pub fn panicked(message: Option<String>) -> (r: OnnxOutcome)
    ensures
        r@ == OutcomeModel::Crashed(panic_text(message)),
{
    match message {
        Some(detail) => OnnxOutcome::Crashed { detail },
        None => OnnxOutcome::Crashed { detail: "panicked with a non-string payload".to_owned() },
    }
}

/// What was found at one output of a runtime.
#[derive(Debug, PartialEq, Eq)]
pub enum Content {
    /// A tensor, as its bytes.
    Tensor { elem_type: ElemType, dims: Vec<i64>, bytes: Vec<u8> },
    /// Nothing, because taking it out failed.
    Failed { stage: Stage, error: String },
    /// Something other than a tensor.
    NotATensor,
    /// A tensor of an element type that the library does not know.
    Unknown { type_label: String },
}

/// What a [`Content`] holds.
#[verifier::ext_equal]
pub enum ContentModel {
    Tensor(ElemType, Seq<i64>, Seq<u8>),
    Failed(StageModel, Seq<char>),
    NotATensor,
    Unknown(Seq<char>),
}

impl View for Content {
    type V = ContentModel;

    open spec fn view(&self) -> ContentModel {
        match self {
            Content::Tensor { elem_type, dims, bytes } => ContentModel::Tensor(
                *elem_type,
                dims@,
                bytes@,
            ),
            Content::Failed { stage, error } => ContentModel::Failed(stage@, error@),
            Content::NotATensor => ContentModel::NotATensor,
            Content::Unknown { type_label } => ContentModel::Unknown(type_label@),
        }
    }
}

/// The labels and the contents of a sequence of outputs.
pub open spec fn outputs_model(v: Seq<(String, Content)>) -> Seq<(Seq<char>, ContentModel)> {
    Seq::new(v.len(), |i: int| (v[i].0@, v[i].1@))
}

/// A tensor that was taken out of a runtime.
pub open spec fn taken_out(name: Seq<char>, elem: ElemType, dims: Seq<i64>, bytes: Seq<u8>) -> TensorModel {
    TensorModel { name, dims, data: data_of_bytes(elem, bytes), role: InputRole::Data }
}

/// What is said of an output that cannot be decoded.
pub open spec fn undecoded_text(
    label: Seq<char>,
    word: Seq<char>,
    type_label: Seq<char>,
) -> Seq<char> {
    "output "@ + label + " has "@ + word + " "@ + type_label
        + ", which this adapter does not decode"@
}

/// What one output amounts to: a tensor, or the reason why the whole answer is refused. `word` is
/// what the runtime calls an element type, and a runtime that gives its outputs no names has them
/// named by `fixed`.
pub open spec fn output_of(
    output: (Seq<char>, ContentModel),
    word: Seq<char>,
    fixed: Option<Seq<char>>,
) -> Result<TensorModel, Seq<char>> {
    match output.1 {
        ContentModel::Tensor(elem, dims, bytes) => Ok(
            taken_out(
                match fixed {
                    Some(name) => name,
                    None => output.0,
                },
                elem,
                dims,
                bytes,
            ),
        ),
        ContentModel::Failed(stage, error) => Err(failure_text(stage, error)),
        ContentModel::NotATensor => Err("output "@ + output.0 + " is not a tensor"@),
        ContentModel::Unknown(type_label) => Err(undecoded_text(output.0, word, type_label)),
    }
}

/// What the first `n` outputs amount to. The first that cannot be taken decides.
pub open spec fn outputs_upto(
    outputs: Seq<(Seq<char>, ContentModel)>,
    word: Seq<char>,
    fixed: Option<Seq<char>>,
    n: nat,
) -> Result<Seq<TensorModel>, Seq<char>>
    decreases n,
{
    if n == 0 {
        Ok(Seq::empty())
    } else {
        match outputs_upto(outputs, word, fixed, (n - 1) as nat) {
            Err(reason) => Err(reason),
            Ok(front) => match output_of(outputs[n - 1], word, fixed) {
                Err(reason) => Err(reason),
                Ok(t) => Ok(front.push(t)),
            },
        }
    }
}

/// What the outputs of a runtime amount to.
pub open spec fn answer_of(
    outputs: Seq<(Seq<char>, ContentModel)>,
    word: Seq<char>,
    fixed: Option<Seq<char>>,
) -> OutcomeModel {
    match outputs_upto(outputs, word, fixed, outputs.len()) {
        Ok(ts) => OutcomeModel::Produced(ts),
        Err(reason) => OutcomeModel::Rejected(reason),
    }
}

proof fn lemma_a_failure_decides(
    outputs: Seq<(Seq<char>, ContentModel)>,
    word: Seq<char>,
    fixed: Option<Seq<char>>,
    n: nat,
    m: nat,
)
    requires
        n <= m,
        outputs_upto(outputs, word, fixed, n) is Err,
    ensures
        outputs_upto(outputs, word, fixed, m) == outputs_upto(outputs, word, fixed, n),
    decreases m,
{
    if n < m {
        lemma_a_failure_decides(outputs, word, fixed, n, (m - 1) as nat);
    }
}

/// The view of a name that may be missing.
pub open spec fn name_of(fixed: Option<&'static str>) -> Option<Seq<char>> {
    match fixed {
        Some(s) => Some(s@),
        None => None,
    }
}

fn gather(outputs: &Vec<(String, Content)>, word: &str, fixed: Option<&'static str>) -> (r:
    OnnxOutcome)
    ensures
        r@ == answer_of(outputs_model(outputs@), word@, name_of(fixed)),
{
    let ghost all = outputs_model(outputs@);
    let ghost named = name_of(fixed);
    let mut tensors: Vec<TensorValue> = Vec::new();
    let mut i: usize = 0;
    assert(tensors_model(tensors@) =~= Seq::empty());
    while i < outputs.len()
        invariant
            i <= outputs.len(),
            all == outputs_model(outputs@),
            named == name_of(fixed),
            outputs_upto(all, word@, named, i as nat) == Ok::<Seq<TensorModel>, Seq<char>>(
                tensors_model(tensors@),
            ),
        decreases outputs.len() - i,
    {
        let label: &String = &outputs[i].0;
        assert(all[i as int] == (label@, outputs@[i as int].1@));
        let ghost before = tensors@;
        let reason: Option<OnnxOutcome> = match &outputs[i].1 {
            Content::Tensor { elem_type, dims, bytes } => {
                let data: TensorData = TensorData::from_le_bytes(*elem_type, bytes.as_slice());
                let name: &str = match fixed {
                    Some(s) => s,
                    None => label.as_str(),
                };
                let t: TensorValue = TensorValue::new(name, copy_dims(dims), data);
                tensors.push(t);
                assert(tensors_model(tensors@) =~= tensors_model(before).push(t@));
                None
            },
            Content::Failed { stage, error } => Some(failed_at(stage, error.as_str())),
            Content::NotATensor => {
                let mut detail: String = "output ".to_owned();
                detail.append(label.as_str());
                detail.append(" is not a tensor");
                Some(OnnxOutcome::Rejected { detail })
            },
            Content::Unknown { type_label } => {
                let mut detail: String = "output ".to_owned();
                detail.append(label.as_str());
                detail.append(" has ");
                detail.append(word);
                detail.append(" ");
                detail.append(type_label.as_str());
                detail.append(", which this adapter does not decode");
                Some(OnnxOutcome::Rejected { detail })
            },
        };
        if let Some(outcome) = reason {
            proof {
                lemma_a_failure_decides(all, word@, named, (i + 1) as nat, all.len());
            }
            return outcome;
        }
        i += 1;
    }
    OnnxOutcome::Produced(tensors)
}

/// What the outputs of ONNX Runtime amount to. Each carries the name that the graph gives it.
pub fn ort_answer(outputs: &Vec<(String, Content)>) -> (r: OnnxOutcome)
    ensures
        r@ == answer_of(outputs_model(outputs@), "element type"@, None),
{
    gather(outputs, "element type", None)
}

/// What the outputs of `tract` amount to, labelled by position. It keeps no names, so every output
/// is given the one that cases use.
pub fn tract_answer(outputs: &Vec<(String, Content)>) -> (r: OnnxOutcome)
    ensures
        r@ == answer_of(outputs_model(outputs@), "datum type"@, Some("out"@)),
{
    gather(outputs, "datum type", Some("out"))
}

/// What the output of `candle` amounts to.
pub open spec fn candle_answer_of(output: Option<Content>) -> OutcomeModel {
    match output {
        None => OutcomeModel::Rejected("no output named out"@),
        Some(content) => match content@ {
            ContentModel::Tensor(elem, dims, bytes) => OutcomeModel::Produced(
                seq![taken_out("out"@, elem, dims, bytes)],
            ),
            ContentModel::Failed(stage, error) => OutcomeModel::Rejected(
                failure_text(stage, error),
            ),
            ContentModel::NotATensor => OutcomeModel::Rejected("output out is not a tensor"@),
            ContentModel::Unknown(type_label) => OutcomeModel::Unsupported(
                "candle produced dtype "@ + type_label + ", which this adapter does not decode"@,
            ),
        },
    }
}

/// What the output of `candle` amounts to, or that it gave none of the expected name. An element
/// type that the library does not know is a gap there, since it comes of the types that `candle`
/// lacks.
pub fn candle_answer(output: Option<Content>) -> (r: OnnxOutcome)
    ensures
        r@ == candle_answer_of(output),
{
    match output {
        None => OnnxOutcome::Rejected { detail: "no output named out".to_owned() },
        Some(content) => match content {
            Content::Tensor { elem_type, dims, bytes } => {
                let data: TensorData = TensorData::from_le_bytes(elem_type, bytes.as_slice());
                let tensors: Vec<TensorValue> = vec![TensorValue::new("out", dims, data)];
                assert(tensors_model(tensors@) =~= seq![
                    taken_out("out"@, elem_type, dims@, bytes@),
                ]);
                OnnxOutcome::Produced(tensors)
            },
            Content::Failed { stage, error } => failed_at(&stage, error.as_str()),
            Content::NotATensor => OnnxOutcome::Rejected {
                detail: "output out is not a tensor".to_owned(),
            },
            Content::Unknown { type_label } => {
                let mut reason: String = "candle produced dtype ".to_owned();
                reason.append(type_label.as_str());
                reason.append(", which this adapter does not decode");
                OnnxOutcome::Unsupported { reason }
            },
        },
    }
}

// ---- running a case ----

/// What came of running a model: outputs, or what went wrong first.
#[derive(Debug)]
pub enum Attempt<T> {
    /// A step failed.
    Failed { stage: Stage, error: String },
    /// The runtime panicked, with what it said if that was a text.
    Panicked { message: Option<String> },
    /// The runtime came back.
    Answered { outputs: T },
}

/// What an attempt amounts to, if outputs amount to what `answer` says.
pub open spec fn attempt_outcome<T>(
    attempt: Attempt<T>,
    answer: spec_fn(T) -> OutcomeModel,
) -> OutcomeModel {
    match attempt {
        Attempt::Failed { stage, error } => OutcomeModel::Rejected(failure_text(stage@, error@)),
        Attempt::Panicked { message } => OutcomeModel::Crashed(panic_text(message)),
        Attempt::Answered { outputs } => answer(outputs),
    }
}

/// What outputs of ONNX Runtime amount to.
pub open spec fn ort_reading() -> spec_fn(Vec<(String, Content)>) -> OutcomeModel {
    |outputs: Vec<(String, Content)>| answer_of(outputs_model(outputs@), "element type"@, None)
}

/// What outputs of `tract` amount to.
pub open spec fn tract_reading() -> spec_fn(Vec<(String, Content)>) -> OutcomeModel {
    |outputs: Vec<(String, Content)>| answer_of(outputs_model(outputs@), "datum type"@, Some("out"@))
}

/// What an output of `candle` amounts to.
pub open spec fn candle_reading() -> spec_fn(Option<Content>) -> OutcomeModel {
    |output: Option<Content>| candle_answer_of(output)
}

/// What a runtime is handed for a case: the bytes of its model and the tensors that it feeds.
pub open spec fn handed(case: CaseModel, model: Seq<u8>, tensors: Seq<RawTensor>) -> bool {
    model == model_of(case).bytes() && raws_model(tensors) == raws_of(fed_of(case.inputs))
}

impl OrtRuntime {
    /// Runs a case. `run` is given the bytes of its model and the tensors that it feeds.
    pub fn execute<F: Fn(&Vec<u8>, &Vec<RawTensor>) -> Attempt<Vec<(String, Content)>>>(
        &self,
        case: &OnnxCase,
        run: F,
    ) -> (r: OnnxOutcome)
        requires
            output_fits(case@),
            forall|m: &Vec<u8>, fs: &Vec<RawTensor>|
                handed(case@, m@, fs@) ==> #[trigger] call_requires(run, (m, fs)),
        ensures
            exists|m: Vec<u8>, fs: Vec<RawTensor>, a: Attempt<Vec<(String, Content)>>|
                handed(case@, m@, fs@) && #[trigger] call_ensures(run, (&m, &fs), a) && r@
                    == attempt_outcome(a, ort_reading()),
    {
        let model: Vec<u8> = build_bytes(case);
        let tensors: Vec<RawTensor> = feeds(case);
        let attempt: Attempt<Vec<(String, Content)>> = run(&model, &tensors);
        assert(call_ensures(run, (&model, &tensors), attempt));
        match attempt {
            Attempt::Failed { stage, error } => failed_at(&stage, error.as_str()),
            Attempt::Panicked { message } => panicked(message),
            Attempt::Answered { outputs } => ort_answer(&outputs),
        }
    }
}

impl TractRuntime {
    /// Runs a case. `run` is given the bytes of its model and the tensors that it feeds.
    pub fn execute<F: Fn(&Vec<u8>, &Vec<RawTensor>) -> Attempt<Vec<(String, Content)>>>(
        &self,
        case: &OnnxCase,
        run: F,
    ) -> (r: OnnxOutcome)
        requires
            output_fits(case@),
            forall|m: &Vec<u8>, fs: &Vec<RawTensor>|
                handed(case@, m@, fs@) ==> #[trigger] call_requires(run, (m, fs)),
        ensures
            exists|m: Vec<u8>, fs: Vec<RawTensor>, a: Attempt<Vec<(String, Content)>>|
                handed(case@, m@, fs@) && #[trigger] call_ensures(run, (&m, &fs), a) && r@
                    == attempt_outcome(a, tract_reading()),
    {
        let model: Vec<u8> = build_bytes(case);
        let tensors: Vec<RawTensor> = feeds(case);
        let attempt: Attempt<Vec<(String, Content)>> = run(&model, &tensors);
        assert(call_ensures(run, (&model, &tensors), attempt));
        match attempt {
            Attempt::Failed { stage, error } => failed_at(&stage, error.as_str()),
            Attempt::Panicked { message } => panicked(message),
            Attempt::Answered { outputs } => tract_answer(&outputs),
        }
    }
}

/// What `candle` is fed for a case: the tensors that the case feeds, where it can hold all of them.
pub open spec fn candle_fed(case: CaseModel, tensors: Seq<RawTensor>) -> bool {
    first_unheld(fed_of(case.inputs), 0) >= fed_of(case.inputs).len() && raws_model(tensors)
        == raws_of(fed_of(case.inputs))
}

fn candle_concludes(attempt: Attempt<Option<Content>>) -> (r: OnnxOutcome)
    ensures
        r@ == attempt_outcome(attempt, candle_reading()),
{
    match attempt {
        Attempt::Failed { stage, error } => failed_at(&stage, error.as_str()),
        Attempt::Panicked { message } => panicked(message),
        Attempt::Answered { outputs } => candle_answer(outputs),
    }
}

impl CandleRuntime {
    /// Runs a case. `parse` is given the bytes of its model, and `run` what that makes of them and
    /// the tensors that the case feeds, unless `candle` cannot hold one of them.
    pub fn execute<
        M,
        P: Fn(&Vec<u8>) -> Result<M, Attempt<Option<Content>>>,
        F: Fn(&M, &Vec<RawTensor>) -> Attempt<Option<Content>>,
    >(&self, case: &OnnxCase, parse: P, run: F) -> (r: OnnxOutcome)
        requires
            output_fits(case@),
            forall|m: &Vec<u8>|
                m@ == model_of(case@).bytes() ==> #[trigger] call_requires(parse, (m,)),
            forall|m: &M, fs: &Vec<RawTensor>|
                candle_fed(case@, fs@) ==> #[trigger] call_requires(run, (m, fs)),
        ensures
            exists|m: Vec<u8>, parsed: Result<M, Attempt<Option<Content>>>|
                {
                    &&& m@ == model_of(case@).bytes()
                    &&& #[trigger] call_ensures(parse, (&m,), parsed)
                    &&& candle_outcome(run, case@, parsed, r@)
                },
    {
        let bytes: Vec<u8> = build_bytes(case);
        let parsed: Result<M, Attempt<Option<Content>>> = parse(&bytes);
        let ghost kept = parsed;
        assert(call_ensures(parse, (&bytes,), kept));
        let r: OnnxOutcome = match parsed {
            Err(attempt) => candle_concludes(attempt),
            Ok(model) => match candle_feeds(case) {
                Err(gap) => gap,
                Ok(tensors) => {
                    let attempt: Attempt<Option<Content>> = run(&model, &tensors);
                    let ghost seen = attempt;
                    assert(call_ensures(run, (&model, &tensors), seen));
                    candle_concludes(attempt)
                },
            },
        };
        assert(candle_outcome(run, case@, kept, r@));
        r
    }
}

/// Whether an outcome is what `candle` gives for a case whose model was parsed.
pub open spec fn candle_outcome<M, F: Fn(&M, &Vec<RawTensor>) -> Attempt<Option<Content>>>(
    run: F,
    case: CaseModel,
    parsed: Result<M, Attempt<Option<Content>>>,
    r: OutcomeModel,
) -> bool {
    let fed = fed_of(case.inputs);
    let at = first_unheld(fed, 0);
    match parsed {
        Err(attempt) => r == attempt_outcome(attempt, candle_reading()),
        Ok(model) => if at < fed.len() {
            r == OutcomeModel::Unsupported(unheld_text(fed[at].elem_type()))
        } else {
            exists|fs: Vec<RawTensor>, a: Attempt<Option<Content>>|
                raws_model(fs@) == raws_of(fed) && #[trigger] call_ensures(run, (&model, &fs), a)
                    && r == attempt_outcome(a, candle_reading())
        },
    }
}

// ---- laws ----

/// A panic is never taken for a refusal, and a refusal never for a panic, whatever was said.
pub proof fn lemma_a_panic_is_not_a_refusal<T>(
    a: Attempt<T>,
    answer: spec_fn(T) -> OutcomeModel,
)
    ensures
        a is Panicked ==> attempt_outcome(a, answer) is Crashed,
        a is Failed ==> attempt_outcome(a, answer) is Rejected,
{
}

/// A runtime that hands back the bytes it was fed hands back the tensor, to the bit, whatever its
/// element type.
pub proof fn lemma_bytes_survive_a_runtime(t: TensorModel, word: Seq<char>)
    requires
        t.role == InputRole::Data,
    ensures
        output_of(
            (t.name, ContentModel::Tensor(raw_of(t).elem_type, raw_of(t).dims, raw_of(t).bytes)),
            word,
            None,
        ) == Ok::<TensorModel, Seq<char>>(t),
{
    lemma_bytes_round_trip(t.data);
}

} // verus!
