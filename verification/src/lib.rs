//! Differential testing of ONNX runtimes, one operator at a time.
//!
//! A *case* is a model with exactly one node together with the tensors it runs on. The library
//! builds cases, says what each operator's output must look like, brings every runtime's answer
//! to one form, compares the answers, and records what it found. Loading models and running them
//! is the business of the program around it.

pub mod text;
pub mod environment;
pub mod fingerprint;
pub mod order;
pub mod bits;
pub mod attrs;
pub mod case;
pub mod ops;
pub mod shape_laws;
pub mod outcome;
pub mod normalize;
pub mod describe;
pub mod text_laws;
pub mod oracle;
pub mod judging_laws;
pub mod features;
pub mod feature_laws;
pub mod predicate;
pub mod negatives;
pub mod search;
pub mod search_laws;
pub mod validation;
pub mod validation_laws;
pub mod rng;
pub mod gen_value;
pub mod gen_shape;
pub mod shapes;
pub mod gen_case;
pub mod generator;
pub mod generation_laws;
pub mod shrink;
pub mod shrink_laws;
pub mod metamorphic;
pub mod metamorphic_laws;
pub mod census;
pub mod capability;
pub mod known;
pub mod policy;
pub mod signature;
pub mod problems;
pub mod findings;
pub mod repro;
pub mod limits;
pub mod rule_validation;
pub mod telling_laws;
pub mod finding_laws;
pub mod evidence_laws;
pub mod roundtrip;
pub mod wire;
pub mod model;
pub mod reference;
pub mod wire_laws;
pub mod runtime_laws;
pub mod sample_laws;
pub mod runtimes;

pub use environment::{FINDINGS_ROOT, NEGATIVES_ROOT};
