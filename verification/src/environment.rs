//! Which versions a finding applies to.
//!
//! A divergence is a claim about particular releases. One component matters more than the others:
//! the release of the `onnx` Python package is the revision of the operators' definition that every
//! answer is judged against, and a finding that does not name it cannot be reproduced.

use vstd::prelude::*;

use crate::text::same_text;

verus! {

/// The `onnx` Python package that supplies the reference implementation.
pub const ONNX_PYTHON_VERSION: &'static str = "1.22.0";

/// The highest opset that [`ONNX_PYTHON_VERSION`] knows about. Above it the reference has no answer.
pub const MAX_OPSET: i64 = 27;

/// The bindings to ONNX Runtime.
pub const ORT_VERSION: &'static str = "2.0.0-rc.13";

/// The library that models are encoded with.
pub const PROST_VERSION: &'static str = "0.14.4";

/// Where findings are written.
pub const FINDINGS_ROOT: &'static str = "findings/onnx";

/// Where sampled cases that did not diverge are written.
pub const NEGATIVES_ROOT: &'static str = "findings/onnx/negatives";

/// What a finding was produced with.
#[derive(Debug, Clone, PartialEq, Eq)]
pub struct Environment {
    pub tool: String,
    pub platform: String,
    /// The components, each with its version.
    pub components: Vec<(String, String)>,
}

/// What an [`Environment`] holds.
#[verifier::ext_equal]
pub struct EnvironmentModel {
    pub tool: Seq<char>,
    pub platform: Seq<char>,
    pub components: Seq<(Seq<char>, Seq<char>)>,
}

/// The names and versions of a sequence of components.
pub open spec fn components_of(v: Seq<(String, String)>) -> Seq<(Seq<char>, Seq<char>)> {
    Seq::new(v.len(), |i: int| (v[i].0@, v[i].1@))
}

impl View for Environment {
    type V = EnvironmentModel;

    open spec fn view(&self) -> EnvironmentModel {
        EnvironmentModel {
            tool: self.tool@,
            platform: self.platform@,
            components: components_of(self.components@),
        }
    }
}

/// A copy of a list of components.
pub(crate) fn copy_components(v: &Vec<(String, String)>) -> (r: Vec<(String, String)>)
    ensures
        components_of(r@) == components_of(v@),
{
    let mut out: Vec<(String, String)> = Vec::new();
    while out.len() < v.len()
        invariant
            out.len() <= v.len(),
            forall|k: int|
                0 <= k < out.len() ==> (#[trigger] out@[k]).0@ == v@[k].0@ && out@[k].1@
                    == v@[k].1@,
        decreases v.len() - out.len(),
    {
        let i: usize = out.len();
        out.push((v[i].0.clone(), v[i].1.clone()));
    }
    assert(components_of(out@) =~= components_of(v@));
    out
}

/// The first recorded version of a component.
pub open spec fn version_in(environment: Seq<(Seq<char>, Seq<char>)>, name: Seq<char>) -> Option<
    Seq<char>,
>
    decreases environment.len(),
{
    if environment.len() == 0 {
        None
    } else if environment[0].0 == name {
        Some(environment[0].1)
    } else {
        version_in(environment.skip(1), name)
    }
}

/// The first recorded version of a component.
pub(crate) fn version_of<'a>(components: &'a Vec<(String, String)>, name: &str) -> (r: Option<
    &'a String,
>)
    ensures
        r is Some <==> version_in(components_of(components@), name@) is Some,
        r matches Some(v) ==> version_in(components_of(components@), name@) == Some(v@),
{
    let ghost all = components_of(components@);
    let mut i: usize = 0;
    assert(all.skip(0) =~= all);
    while i < components.len()
        invariant
            i <= components.len(),
            all == components_of(components@),
            version_in(all.skip(i as int), name@) == version_in(all, name@),
        decreases components.len() - i,
    {
        let ghost rest = all.skip(i as int);
        assert(rest[0] == (components@[i as int].0@, components@[i as int].1@));
        if same_text(components[i].0.as_str(), name) {
            return Some(&components[i].1);
        }
        assert(rest.skip(1) =~= all.skip(i + 1));
        i += 1;
    }
    None
}

impl EnvironmentModel {
    /// An environment with one more component.
    pub open spec fn plus(self, name: Seq<char>, version: Seq<char>) -> EnvironmentModel {
        EnvironmentModel { components: self.components.push((name, version)), ..self }
    }
}

impl Environment {
    /// An environment with one more component.
    pub fn with(self, name: &str, version: &str) -> (r: Self)
        ensures
            r@ == self@.plus(name@, version@),
    {
        let ghost before = self.components@;
        let mut components: Vec<(String, String)> = self.components;
        components.push((name.to_owned(), version.to_owned()));
        assert(components_of(components@) =~= components_of(before).push((name@, version@)));
        Environment { tool: self.tool, platform: self.platform, components }
    }
}

/// The environment of a finding, given the tool and the platform that were detected: the release
/// that answers are judged against and the library that models are encoded with are added.
pub fn environment(detected: Environment) -> (r: Environment)
    ensures
        r@ == detected@.plus("onnx (python, reference)"@, ONNX_PYTHON_VERSION@).plus(
            "prost"@,
            PROST_VERSION@,
        ),
{
    detected.with("onnx (python, reference)", ONNX_PYTHON_VERSION).with("prost", PROST_VERSION)
}

} // verus!
