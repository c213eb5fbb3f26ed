# onnx-adapter

Differential testing of ONNX runtimes, as a verified library. A case is one operator at one opset
version with its inputs and attributes. Cases are generated, written as ONNX models, run by several
runtimes, brought into a canonical form and compared; what diverges is given a signature, shrunk,
recorded, and searched for the rule that triggers it.

- `src/` is the library. Its functions have contracts that Verus proves, except the few that call an
  outside crate or an unspecified part of the standard library: their contracts are believed, and of
  seeding a random stream nothing is claimed at all. Floating-point values are bit patterns there,
  and rates are percentages.
- `tests/` runs the library, with the real outside crates.
- `app/` is ordinary Rust around it: the runtimes and the reference process, the files, and the
  arithmetic on floating-point numbers.

| part | modules |
| --- | --- |
| cases | `attrs`, `case`, `ops`, `validation`, `limits`, `describe` |
| drawing cases | `rng`, `gen_value`, `gen_shape`, `shapes`, `gen_case`, `generator` |
| models and runtimes | `wire`, `model`, `runtimes`, `reference`, `outcome` |
| judging | `normalize`, `oracle`, `known`, `policy`, `signature`, `metamorphic`, `roundtrip` |
| what a runtime supports | `census`, `capability` |
| findings | `findings`, `repro`, `problems`, `shrink`, `environment`, `fingerprint` |
| rules | `features`, `predicate`, `negatives`, `search`, `rule_validation` |
| helpers | `text`, `order`, `bits` |

The two fingerprints in `src/fingerprint.rs` name the version of the code that draws cases and of the
code that judges results. They have to be set anew when that code changes; `fingerprints` in
`app/fingerprints.rs` computes them.
