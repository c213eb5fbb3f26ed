//! What a generated case may look like, before any numbers are chosen.
//!
//! Each switch is an axis: it admits operators or types that were left out before, and never
//! changes how a case that was already admitted is built. Each number is a bound. Rank and extent
//! multiply, so bounding each of them does not bound a case; the element budget does.

use vstd::prelude::*;

pub use crate::fingerprint::GENERATOR_FINGERPRINT;
use crate::case::{ElemType, OpKind};
use crate::ops::{contains_type, op_spec, probe, Family, OpSpec, Tier};
use crate::text::{decimal, decimal_text, hex, hex_text, integer, integer_text, join, join_text};
use crate::text::{digits_text, lemma_digits_are_digits, lemma_digits_tell_numbers_apart};
use crate::text::lemma_integers_are_told_apart;
use crate::text::{same_text, texts};

verus! {

/// The opset version that models are built at unless something else is asked for.
pub const DEFAULT_OPSET: i64 = 22;

/// What a generated case may contain.
#[derive(Debug, Clone, Copy, PartialEq, Eq, Structural)]
pub struct Bounds {
    /// Elementwise arithmetic.
    pub float_elementwise: bool,
    /// `Equal`, `Greater`, `Less`.
    pub comparisons: bool,
    /// `And`, `Or`, `Xor`, `Not`.
    pub logical: bool,
    /// Operators that rearrange or select.
    pub structural: bool,
    /// The quantized operators and the 8-bit types.
    pub quantized: bool,
    /// Operators whose second input is a shape, axes or amounts of padding.
    pub shape_input_operators: bool,
    /// `F64` beside `F32`.
    pub float64: bool,
    /// `I32` and `I64`.
    pub integer_types: bool,
    pub bool_type: bool,
    /// Whether special values are injected, at [`Self::special_value_rate`].
    pub special_values: bool,
    /// Scalars and extents of zero.
    pub degenerate_shapes: bool,
    /// Whether the opset version is drawn from the operator's span instead of being
    /// [`Self::opset`].
    pub vary_opset: bool,
    pub max_rank: usize,
    pub max_dim: i64,
    /// The most elements a tensor may have.
    pub element_budget: usize,
    /// How many values in a hundred are special, where special values are on.
    pub special_value_rate: u32,
    pub opset: i64,
}

/// The starting configuration.
pub open spec fn default_bounds() -> Bounds {
    Bounds {
        float_elementwise: true,
        comparisons: true,
        logical: true,
        structural: true,
        quantized: false,
        shape_input_operators: true,
        float64: true,
        integer_types: true,
        bool_type: true,
        special_values: false,
        degenerate_shapes: true,
        vary_opset: false,
        max_rank: 4,
        max_dim: 8,
        element_budget: 256,
        special_value_rate: 25,
        opset: 22,
    }
}

impl Default for Bounds {
    fn default() -> (r: Self)
        ensures
            r == default_bounds(),
    {
        Bounds {
            float_elementwise: true,
            comparisons: true,
            logical: true,
            structural: true,
            quantized: false,
            shape_input_operators: true,
            float64: true,
            integer_types: true,
            bool_type: true,
            special_values: false,
            degenerate_shapes: true,
            vary_opset: false,
            max_rank: 4,
            max_dim: 8,
            element_budget: 256,
            special_value_rate: 25,
            opset: DEFAULT_OPSET,
        }
    }
}

/// `base` to the power `n`.
pub open spec fn power(base: nat, n: nat) -> nat
    decreases n,
{
    if n == 0 {
        1
    } else {
        base * power(base, (n - 1) as nat)
    }
}

impl Bounds {
    /// The element types that the configuration permits.
    pub open spec fn types(self) -> Seq<ElemType> {
        let single = seq![ElemType::F32];
        let floats = if self.float64 {
            single.push(ElemType::F64)
        } else {
            single
        };
        let numbers = if self.integer_types {
            floats.push(ElemType::I32).push(ElemType::I64)
        } else {
            floats
        };
        let plain = if self.bool_type {
            numbers.push(ElemType::Bool)
        } else {
            numbers
        };
        if self.quantized {
            plain.push(ElemType::I8).push(ElemType::U8)
        } else {
            plain
        }
    }

    /// Whether the axis that covers an operator is on. The logical operators share a calling
    /// convention with the arithmetic ones; what tells them apart is that they take booleans only.
    pub open spec fn covers(self, op: OpKind) -> bool {
        match op.family() {
            Family::Reshape | Family::Squeeze | Family::Unsqueeze | Family::Slice | Family::Pad
                => self.shape_input_operators,
            Family::Comparison => self.comparisons,
            Family::BinaryElementwise | Family::UnaryElementwise => if op.data_types()
                == seq![ElemType::Bool] {
                self.logical
            } else if op.tier() == Tier::B {
                self.float_elementwise
            } else {
                self.structural
            },
            Family::Quantize | Family::Dequantize | Family::MatMulInteger | Family::DynamicQuantize
                => self.quantized,
            Family::Select | Family::Cast | Family::Transpose | Family::Concat | Family::Gather
            | Family::Shape | Family::Size => self.structural,
        }
    }

    /// Whether a case for an operator can be built: its axis is on, and it admits one of the
    /// permitted types at the opset version.
    pub open spec fn offers(self, op: OpKind) -> bool {
        self.covers(op) && exists|i: int|
            0 <= i < self.types().len() && op.admits(#[trigger] self.types()[i], self.opset)
    }

    /// The narrowest useful configuration: one family of operators, one element type.
    pub fn one_axis() -> (r: Self)
        ensures
            r == (Bounds {
                comparisons: false,
                logical: false,
                structural: false,
                shape_input_operators: false,
                float64: false,
                integer_types: false,
                bool_type: false,
                degenerate_shapes: false,
                ..default_bounds()
            }),
    {
        let mut r: Bounds = Bounds::default();
        r.comparisons = false;
        r.logical = false;
        r.structural = false;
        r.shape_input_operators = false;
        r.float64 = false;
        r.integer_types = false;
        r.bool_type = false;
        r.degenerate_shapes = false;
        r
    }

    /// The same configuration without special values: the baseline for what they bring.
    pub fn without_special_values(&self) -> (r: Self)
        ensures
            r == (Bounds { special_values: false, ..*self }),
    {
        let mut r: Bounds = *self;
        r.special_values = false;
        r
    }

    /// The same configuration with special values.
    pub fn with_special_values(&self) -> (r: Self)
        ensures
            r == (Bounds { special_values: true, ..*self }),
    {
        let mut r: Bounds = *self;
        r.special_values = true;
        r
    }

    /// The same configuration with the quantized surface.
    pub fn with_quantized(&self) -> (r: Self)
        ensures
            r == (Bounds { quantized: true, ..*self }),
    {
        let mut r: Bounds = *self;
        r.quantized = true;
        r
    }

    /// The same configuration with the opset version drawn from each operator's span.
    pub fn with_opsets(&self) -> (r: Self)
        ensures
            r == (Bounds { vary_opset: true, ..*self }),
    {
        let mut r: Bounds = *self;
        r.vary_opset = true;
        r
    }

    /// The element types that the configuration permits. `F32` always is among them.
    pub fn element_types(&self) -> (r: Vec<ElemType>)
        ensures
            r@ == self.types(),
            1 <= r.len() <= 7,
    {
        let mut types: Vec<ElemType> = Vec::new();
        types.push(ElemType::F32);
        if self.float64 {
            types.push(ElemType::F64);
        }
        if self.integer_types {
            types.push(ElemType::I32);
            types.push(ElemType::I64);
        }
        if self.bool_type {
            types.push(ElemType::Bool);
        }
        if self.quantized {
            types.push(ElemType::I8);
            types.push(ElemType::U8);
        }
        assert(types@ =~= self.types());
        types
    }

    /// Whether the axis that covers an operator is on.
    fn admits_family(&self, op: OpKind) -> (r: bool)
        ensures
            r == self.covers(op),
    {
        let spec: OpSpec = op_spec(op);
        match spec.family {
            Family::Reshape | Family::Squeeze | Family::Unsqueeze | Family::Slice | Family::Pad => {
                self.shape_input_operators
            },
            Family::Comparison => self.comparisons,
            Family::BinaryElementwise | Family::UnaryElementwise => {
                let boolean: bool = spec.data_types.len() == 1 && spec.data_types[0]
                    == ElemType::Bool;
                assert(boolean == (op.data_types() =~= seq![ElemType::Bool]));
                if boolean {
                    self.logical
                } else if spec.tier == Tier::B {
                    self.float_elementwise
                } else {
                    self.structural
                }
            },
            Family::Quantize
            | Family::Dequantize
            | Family::MatMulInteger
            | Family::DynamicQuantize => self.quantized,
            Family::Select
            | Family::Cast
            | Family::Transpose
            | Family::Concat
            | Family::Gather
            | Family::Shape
            | Family::Size => self.structural,
        }
    }

    /// Whether a case for an operator can be built.
    pub fn offers_operator(&self, op: OpKind) -> (r: bool)
        ensures
            r == self.offers(op),
    {
        if !self.admits_family(op) {
            return false;
        }
        let types: Vec<ElemType> = self.element_types();
        let mut i: usize = 0;
        while i < types.len()
            invariant
                i <= types.len(),
                types@ == self.types(),
                self.covers(op),
                forall|k: int|
                    0 <= k < i ==> !op.admits(#[trigger] self.types()[k], self.opset),
            decreases types.len() - i,
        {
            if probe(op, types[i], self.opset).is_some() {
                assert(op.admits(self.types()[i as int], self.opset));
                return true;
            }
            i += 1;
        }
        false
    }

    /// The operators that a case can be built for, in the order of their declaration.
    pub fn operators(&self) -> (r: Vec<OpKind>)
        ensures
            r@ == OpKind::ALL@.filter(|op: OpKind| self.offers(op)),
    {
        let ghost f = |op: OpKind| self.offers(op);
        let mut out: Vec<OpKind> = Vec::new();
        proof {
            reveal(Seq::filter);
        }
        assert(OpKind::ALL@.take(0).filter(f) =~= Seq::empty());
        let mut k: usize = 0;
        while k < 37
            invariant
                k <= 37,
                OpKind::ALL@.len() == 37,
                f == (|op: OpKind| self.offers(op)),
                out@ == OpKind::ALL@.take(k as int).filter(f),
            decreases 37 - k,
        {
            let op: OpKind = OpKind::ALL[k];
            proof {
                assert(OpKind::ALL@.take(k + 1) =~= OpKind::ALL@.take(k as int).push(op));
                OpKind::ALL@.take(k as int).lemma_filter_push(op, f);
            }
            if self.offers_operator(op) {
                out.push(op);
            }
            k += 1;
        }
        assert(OpKind::ALL@.take(37) =~= OpKind::ALL@);
        out
    }

    /// The permitted types that an operator admits.
    pub fn admitted_types(&self, op: OpKind) -> (r: Vec<ElemType>)
        ensures
            r@ == self.types().filter(|t: ElemType| op.data_types().contains(t)),
            self.offers(op) ==> r.len() > 0,
            r.len() <= 7,
    {
        let ghost f = |t: ElemType| op.data_types().contains(t);
        let types: Vec<ElemType> = self.element_types();
        let spec: OpSpec = op_spec(op);
        let mut out: Vec<ElemType> = Vec::new();
        proof {
            reveal(Seq::filter);
        }
        assert(types@.take(0).filter(f) =~= Seq::empty());
        let mut k: usize = 0;
        while k < types.len()
            invariant
                k <= types.len() <= 7,
                out.len() <= k,
                spec.data_types@ == op.data_types(),
                f == (|t: ElemType| op.data_types().contains(t)),
                out@ == types@.take(k as int).filter(f),
                forall|j: int|
                    0 <= j < k && op.data_types().contains(#[trigger] types@[j]) ==> out.len() > 0,
            decreases types.len() - k,
        {
            let t: ElemType = types[k];
            proof {
                assert(types@.take(k + 1) =~= types@.take(k as int).push(t));
                types@.take(k as int).lemma_filter_push(t, f);
            }
            if contains_type(&spec.data_types, t) {
                out.push(t);
            }
            k += 1;
        }
        assert(types@.take(k as int) =~= types@);
        out
    }

    /// How many elements the knobs would permit if there were no budget.
    pub open spec fn worst_case(self) -> nat {
        power((if self.max_dim >= 1 { self.max_dim as int } else { 1 }) as nat, self.max_rank as nat)
    }

    /// How many elements the knobs would permit if there were no budget.
    pub fn unbudgeted_worst_case(&self) -> (r: u128)
        requires
            self.worst_case() <= u128::MAX,
        ensures
            r == self.worst_case(),
    {
        let base: u128 = if self.max_dim >= 1 {
            self.max_dim as u128
        } else {
            1
        };
        let mut acc: u128 = 1;
        let mut k: usize = 0;
        while k < self.max_rank
            invariant
                k <= self.max_rank,
                base >= 1,
                acc == power(base as nat, k as nat),
                power(base as nat, self.max_rank as nat) <= u128::MAX,
            decreases self.max_rank - k,
        {
            proof {
                lemma_power_grows(base as nat, (k + 1) as nat, self.max_rank as nat);
                assert(base * acc == power(base as nat, (k + 1) as nat));
            }
            acc = base * acc;
            k += 1;
        }
        acc
    }
}

pub proof fn lemma_power_grows(base: nat, a: nat, b: nat)
    requires
        base >= 1,
        a <= b,
    ensures
        1 <= power(base, a) <= power(base, b),
    decreases b,
{
    if a < b {
        lemma_power_grows(base, a, (b - 1) as nat);
        assert(power(base, (b - 1) as nat) <= base * power(base, (b - 1) as nat))
            by (nonlinear_arith)
            requires
                base >= 1,
                power(base, (b - 1) as nat) >= 1,
        ;
    } else if b > 0 {
        lemma_power_grows(base, (b - 1) as nat, (b - 1) as nat);
        assert(base * power(base, (b - 1) as nat) >= 1) by (nonlinear_arith)
            requires
                base >= 1,
                power(base, (b - 1) as nat) >= 1,
        ;
    }
}

// ---- what identifies a configuration ----

/// How a switch is written.
pub open spec fn switch_text(name: Seq<char>, on: bool) -> Seq<char> {
    name + (if on {
        "=on"@
    } else {
        "=off"@
    })
}

/// How a bound is written.
pub open spec fn bound_text(name: Seq<char>, value: Seq<char>) -> Seq<char> {
    name + "="@ + value
}

/// How a rate is written: as a fraction with two digits.
pub open spec fn rate_text(percent: nat) -> Seq<char> {
    decimal_text(percent / 100) + "."@ + decimal_text(percent % 100 / 10) + decimal_text(
        percent % 10,
    )
}

/// A rate as a fraction with two digits.
pub fn rate_of(percent: u32) -> (r: String)
    ensures
        r@ == rate_text(percent as nat),
{
    let mut out: String = decimal((percent / 100) as u64);
    out.append(".");
    out.append(decimal((percent % 100 / 10) as u64).as_str());
    out.append(decimal((percent % 10) as u64).as_str());
    out
}

impl Bounds {
    /// The switches, in a fixed order. Those that are off are listed too: a description that left
    /// them out could not tell a switch that is off from one that did not exist yet.
    pub open spec fn axis_list(self) -> Seq<(Seq<char>, bool)> {
        seq![
            ("float-elementwise"@, self.float_elementwise),
            ("comparisons"@, self.comparisons),
            ("logical"@, self.logical),
            ("structural"@, self.structural),
            ("shape-input-ops"@, self.shape_input_operators),
            ("quantized"@, self.quantized),
            ("float64"@, self.float64),
            ("integer-types"@, self.integer_types),
            ("bool-type"@, self.bool_type),
            ("special-values"@, self.special_values),
            ("degenerate-shapes"@, self.degenerate_shapes),
            ("vary-opset"@, self.vary_opset),
        ]
    }

    /// The numeric bounds, in a fixed order.
    pub open spec fn scalar_list(self) -> Seq<(Seq<char>, Seq<char>)> {
        seq![
            ("max-rank"@, decimal_text(self.max_rank as nat)),
            ("max-dim"@, integer_text(self.max_dim as int)),
            ("element-budget"@, decimal_text(self.element_budget as nat)),
            ("special-rate"@, rate_text(self.special_value_rate as nat)),
            ("opset"@, integer_text(self.opset as int)),
        ]
    }

    /// The parts of a description.
    pub open spec fn part_list(self) -> Seq<Seq<char>> {
        Seq::new(12, |i: int| switch_text(self.axis_list()[i].0, self.axis_list()[i].1)) + Seq::new(
            5,
            |i: int| bound_text(self.scalar_list()[i].0, self.scalar_list()[i].1),
        ) + seq![bound_text("logic"@, hex_text(GENERATOR_FINGERPRINT as nat, 8))]
    }

    /// How a configuration is written.
    pub open spec fn description_text(self) -> Seq<char> {
        join_text(self.part_list(), " "@)
    }

    /// The switches, in a fixed order, including those that are off.
    pub fn axes(&self) -> (r: Vec<(&'static str, bool)>)
        ensures
            r.len() == 12,
            forall|i: int|
                0 <= i < 12 ==> (#[trigger] r@[i]).0@ == self.axis_list()[i].0 && r@[i].1
                    == self.axis_list()[i].1,
    {
        vec![
            ("float-elementwise", self.float_elementwise),
            ("comparisons", self.comparisons),
            ("logical", self.logical),
            ("structural", self.structural),
            ("shape-input-ops", self.shape_input_operators),
            ("quantized", self.quantized),
            ("float64", self.float64),
            ("integer-types", self.integer_types),
            ("bool-type", self.bool_type),
            ("special-values", self.special_values),
            ("degenerate-shapes", self.degenerate_shapes),
            ("vary-opset", self.vary_opset),
        ]
    }

    /// The numeric bounds, in a fixed order.
    pub fn scalars(&self) -> (r: Vec<(&'static str, String)>)
        ensures
            r.len() == 5,
            forall|i: int|
                0 <= i < 5 ==> (#[trigger] r@[i]).0@ == self.scalar_list()[i].0 && r@[i].1@
                    == self.scalar_list()[i].1,
    {
        vec![
            ("max-rank", decimal(self.max_rank as u64)),
            ("max-dim", integer(self.max_dim)),
            ("element-budget", decimal(self.element_budget as u64)),
            ("special-rate", rate_of(self.special_value_rate)),
            ("opset", integer(self.opset)),
        ]
    }

    /// The version of the generating code, which the switches cannot show.
    pub fn logic_version(&self) -> (r: String)
        ensures
            r@ == hex_text(GENERATOR_FINGERPRINT as nat, 8),
    {
        hex(GENERATOR_FINGERPRINT as u64, 8)
    }

    /// The identity of a configuration, as one line.
    pub fn description(&self) -> (r: String)
        ensures
            r@ == self.description_text(),
    {
        let mut parts: Vec<String> = Vec::new();
        let axes: Vec<(&'static str, bool)> = self.axes();
        let mut i: usize = 0;
        while i < 12
            invariant
                i <= 12,
                axes.len() == 12,
                forall|k: int|
                    0 <= k < 12 ==> (#[trigger] axes@[k]).0@ == self.axis_list()[k].0 && axes@[k].1
                        == self.axis_list()[k].1,
                parts.len() == i,
                forall|k: int|
                    0 <= k < i ==> (#[trigger] parts@[k])@ == switch_text(
                        self.axis_list()[k].0,
                        self.axis_list()[k].1,
                    ),
            decreases 12 - i,
        {
            let mut part: String = axes[i].0.to_owned();
            part.append(
                if axes[i].1 {
                    "=on"
                } else {
                    "=off"
                },
            );
            parts.push(part);
            i += 1;
        }
        let scalars: Vec<(&'static str, String)> = self.scalars();
        let mut j: usize = 0;
        while j < 5
            invariant
                j <= 5,
                scalars.len() == 5,
                forall|k: int|
                    0 <= k < 5 ==> (#[trigger] scalars@[k]).0@ == self.scalar_list()[k].0
                        && scalars@[k].1@ == self.scalar_list()[k].1,
                parts.len() == 12 + j,
                forall|k: int|
                    0 <= k < 12 ==> (#[trigger] parts@[k])@ == switch_text(
                        self.axis_list()[k].0,
                        self.axis_list()[k].1,
                    ),
                forall|k: int|
                    12 <= k < 12 + j ==> (#[trigger] parts@[k])@ == bound_text(
                        self.scalar_list()[k - 12].0,
                        self.scalar_list()[k - 12].1,
                    ),
            decreases 5 - j,
        {
            let mut part: String = scalars[j].0.to_owned();
            part.append("=");
            part.append(scalars[j].1.as_str());
            parts.push(part);
            j += 1;
        }
        let mut part: String = "logic".to_owned();
        part.append("=");
        part.append(self.logic_version().as_str());
        parts.push(part);
        assert(texts(parts@) =~= self.part_list());
        join(&parts, " ")
    }

    /// Whether two configurations draw from the same distribution: they have the same identity.
    pub fn comparable_with(&self, other: &Self) -> (r: bool)
        ensures
            r == (self.description_text() == other.description_text()),
    {
        same_text(self.description().as_str(), other.description().as_str())
    }
}

// ---- laws ----

/// Whether a configuration has every switch on that another one has, at the same opset version.
pub open spec fn widens(narrow: Bounds, wide: Bounds) -> bool {
    &&& narrow.float_elementwise ==> wide.float_elementwise
    &&& narrow.comparisons ==> wide.comparisons
    &&& narrow.logical ==> wide.logical
    &&& narrow.structural ==> wide.structural
    &&& narrow.quantized ==> wide.quantized
    &&& narrow.shape_input_operators ==> wide.shape_input_operators
    &&& narrow.float64 ==> wide.float64
    &&& narrow.integer_types ==> wide.integer_types
    &&& narrow.bool_type ==> wide.bool_type
    &&& narrow.opset == wide.opset
}

proof fn lemma_permitted(b: Bounds, t: ElemType)
    ensures
        b.types().contains(t) == (match t {
            ElemType::F32 => true,
            ElemType::F64 => b.float64,
            ElemType::I32 | ElemType::I64 => b.integer_types,
            ElemType::Bool => b.bool_type,
            ElemType::I8 | ElemType::U8 => b.quantized,
        }),
{
    let single = seq![ElemType::F32];
    let floats = if b.float64 {
        single.push(ElemType::F64)
    } else {
        single
    };
    let numbers = if b.integer_types {
        floats.push(ElemType::I32).push(ElemType::I64)
    } else {
        floats
    };
    let plain = if b.bool_type {
        numbers.push(ElemType::Bool)
    } else {
        numbers
    };
    let all = b.types();
    assert(all[0] == ElemType::F32);
    if b.float64 {
        assert(all[1] == ElemType::F64);
    }
    if b.integer_types {
        assert(all[floats.len() as int] == ElemType::I32);
        assert(all[floats.len() as int + 1] == ElemType::I64);
    }
    if b.bool_type {
        assert(all[numbers.len() as int] == ElemType::Bool);
    }
    if b.quantized {
        assert(all[plain.len() as int] == ElemType::I8);
        assert(all[plain.len() as int + 1] == ElemType::U8);
    }
}

/// Turning a switch on adds operators and types and never takes one away.
pub proof fn lemma_axes_are_additive(narrow: Bounds, wide: Bounds, op: OpKind, t: ElemType)
    requires
        widens(narrow, wide),
    ensures
        narrow.types().contains(t) ==> wide.types().contains(t),
        narrow.offers(op) ==> wide.offers(op),
{
    lemma_permitted(narrow, t);
    lemma_permitted(wide, t);
    if narrow.offers(op) {
        let i = choose|i: int|
            0 <= i < narrow.types().len() && op.admits(
                #[trigger] narrow.types()[i],
                narrow.opset,
            );
        let u = narrow.types()[i];
        lemma_permitted(narrow, u);
        lemma_permitted(wide, u);
        assert(narrow.types().contains(u));
        let j = choose|j: int| 0 <= j < wide.types().len() && wide.types()[j] == u;
        assert(op.admits(wide.types()[j], wide.opset));
    }
}

/// Varying the opset version, injecting special values and admitting degenerate shapes leave the
/// operators and types as they are.
pub proof fn lemma_value_axes_keep_the_operators(b: Bounds, op: OpKind)
    ensures
        (Bounds { special_values: true, ..b }).offers(op) == b.offers(op),
        (Bounds { vary_opset: true, ..b }).offers(op) == b.offers(op),
        (Bounds { degenerate_shapes: true, ..b }).offers(op) == b.offers(op),
{
    assert((Bounds { special_values: true, ..b }).types() == b.types());
    assert((Bounds { vary_opset: true, ..b }).types() == b.types());
    assert((Bounds { degenerate_shapes: true, ..b }).types() == b.types());
}

/// With every operator axis off, nothing is offered.
pub proof fn lemma_no_axis_no_operator(b: Bounds, op: OpKind)
    requires
        !b.float_elementwise && !b.comparisons && !b.logical && !b.structural && !b.quantized
            && !b.shape_input_operators,
    ensures
        !b.offers(op),
{
}

/// Whether a text holds no space.
spec fn tight(s: Seq<char>) -> bool {
    forall|i: int| 0 <= i < s.len() ==> #[trigger] s[i] != ' '
}

spec fn tight_from(s: Seq<char>, i: int) -> bool
    decreases s.len() - i,
{
    i >= s.len() || (s[i] != ' ' && tight_from(s, i + 1))
}

proof fn lemma_tight_from(s: Seq<char>, i: int, k: int)
    requires
        tight_from(s, i),
        i <= k < s.len(),
    ensures
        s[k] != ' ',
    decreases k - i,
{
    if i < k {
        lemma_tight_from(s, i + 1, k);
    }
}

proof fn lemma_tight(s: Seq<char>)
    requires
        tight_from(s, 0),
    ensures
        tight(s),
{
    assert forall|k: int| 0 <= k < s.len() implies #[trigger] s[k] != ' ' by {
        lemma_tight_from(s, 0, k);
    }
}

/// Texts without spaces are told apart where a space stands between them.
proof fn lemma_joins_are_told_apart(a: Seq<Seq<char>>, b: Seq<Seq<char>>)
    requires
        a.len() == b.len(),
        forall|i: int| 0 <= i < a.len() ==> tight(#[trigger] a[i]),
        forall|i: int| 0 <= i < b.len() ==> tight(#[trigger] b[i]),
        join_text(a, " "@) == join_text(b, " "@),
    ensures
        a == b,
    decreases a.len(),
{
    if a.len() == 0 {
        assert(a =~= b);
    } else if a.len() == 1 {
        assert(a[0] == b[0]);
        assert(a =~= b);
    } else {
        reveal_strlit(" ");
        let x = a.last();
        let y = b.last();
        let s = join_text(a.drop_last(), " "@);
        let t = join_text(b.drop_last(), " "@);
        let whole = s + " "@ + x;
        assert(whole == t + " "@ + y);
        assert(tight(a[a.len() - 1]) && tight(b[b.len() - 1]));
        assert(whole[s.len() as int] == ' ');
        assert((t + " "@ + y)[t.len() as int] == ' ');
        if s.len() < t.len() {
            assert(whole[t.len() as int] == x[t.len() - s.len() - 1]);
        } else if t.len() < s.len() {
            assert((t + " "@ + y)[s.len() as int] == y[s.len() - t.len() - 1]);
        }
        assert(s =~= whole.take(s.len() as int));
        assert(t =~= (t + " "@ + y).take(t.len() as int));
        assert(x =~= whole.skip(s.len() as int + 1));
        assert(y =~= (t + " "@ + y).skip(t.len() as int + 1));
        assert forall|i: int| 0 <= i < a.len() - 1 implies tight(#[trigger] a.drop_last()[i]) by {
            assert(tight(a[i]));
        }
        assert forall|i: int| 0 <= i < b.len() - 1 implies tight(#[trigger] b.drop_last()[i]) by {
            assert(tight(b[i]));
        }
        lemma_joins_are_told_apart(a.drop_last(), b.drop_last());
        assert(a =~= a.drop_last().push(x));
        assert(b =~= b.drop_last().push(y));
    }
}

proof fn lemma_switches_are_told_apart(name: Seq<char>, a: bool, b: bool)
    requires
        switch_text(name, a) == switch_text(name, b),
    ensures
        a == b,
{
    reveal_strlit("=on");
    reveal_strlit("=off");
    assert(switch_text(name, true).len() == name.len() + 3);
    assert(switch_text(name, false).len() == name.len() + 4);
}

proof fn lemma_bounds_are_told_apart(name: Seq<char>, a: Seq<char>, b: Seq<char>)
    requires
        bound_text(name, a) == bound_text(name, b),
    ensures
        a == b,
{
    reveal_strlit("=");
    assert(a =~= bound_text(name, a).skip(name.len() as int + 1));
    assert(b =~= bound_text(name, b).skip(name.len() as int + 1));
}

proof fn lemma_one_digit(n: nat)
    requires
        n < 10,
    ensures
        decimal_text(n).len() == 1,
{
}

proof fn lemma_rates_are_told_apart(a: nat, b: nat)
    requires
        rate_text(a) == rate_text(b),
    ensures
        a == b,
{
    reveal_strlit(".");
    let s = rate_text(a);
    let t = rate_text(b);
    lemma_one_digit(a % 100 / 10);
    lemma_one_digit(a % 10);
    lemma_one_digit(b % 100 / 10);
    lemma_one_digit(b % 10);
    let n = decimal_text(a / 100).len() as int;
    let m = decimal_text(b / 100).len() as int;
    assert(s.len() == n + 3 && t.len() == m + 3);
    assert(decimal_text(a / 100) =~= s.take(n));
    assert(decimal_text(b / 100) =~= t.take(n));
    assert(decimal_text(a % 100 / 10) =~= s.subrange(n + 1, n + 2));
    assert(decimal_text(b % 100 / 10) =~= t.subrange(n + 1, n + 2));
    assert(decimal_text(a % 10) =~= s.subrange(n + 2, n + 3));
    assert(decimal_text(b % 10) =~= t.subrange(n + 2, n + 3));
    lemma_digits_tell_numbers_apart(a / 100, b / 100, 10);
    lemma_digits_tell_numbers_apart(a % 100 / 10, b % 100 / 10, 10);
    lemma_digits_tell_numbers_apart(a % 10, b % 10, 10);
}

proof fn lemma_digits_are_tight(n: nat, base: nat)
    requires
        2 <= base <= 16,
    ensures
        tight(digits_text(n, base)),
{
    lemma_digits_are_digits(n, base);
}

proof fn lemma_integer_is_tight(n: int)
    ensures
        tight(integer_text(n)),
{
    lemma_digits_are_tight(if n < 0 { (-n) as nat } else { n as nat }, 10);
}

proof fn lemma_rate_is_tight(n: nat)
    ensures
        tight(rate_text(n)),
{
    reveal_strlit(".");
    lemma_digits_are_tight(n / 100, 10);
    lemma_digits_are_tight(n % 100 / 10, 10);
    lemma_digits_are_tight(n % 10, 10);
}

proof fn lemma_literals_are_tight()
    ensures
        tight("float-elementwise"@),
        tight("comparisons"@),
        tight("logical"@),
        tight("structural"@),
        tight("shape-input-ops"@),
        tight("quantized"@),
        tight("float64"@),
        tight("integer-types"@),
        tight("bool-type"@),
        tight("special-values"@),
        tight("degenerate-shapes"@),
        tight("vary-opset"@),
{
    assert(tight("float-elementwise"@)) by {
        reveal_strlit("float-elementwise");
        reveal_with_fuel(tight_from, 18);
        lemma_tight("float-elementwise"@);
    }
    assert(tight("comparisons"@)) by {
        reveal_strlit("comparisons");
        reveal_with_fuel(tight_from, 12);
        lemma_tight("comparisons"@);
    }
    assert(tight("logical"@)) by {
        reveal_strlit("logical");
        reveal_with_fuel(tight_from, 8);
        lemma_tight("logical"@);
    }
    assert(tight("structural"@)) by {
        reveal_strlit("structural");
        reveal_with_fuel(tight_from, 11);
        lemma_tight("structural"@);
    }
    assert(tight("shape-input-ops"@)) by {
        reveal_strlit("shape-input-ops");
        reveal_with_fuel(tight_from, 16);
        lemma_tight("shape-input-ops"@);
    }
    assert(tight("quantized"@)) by {
        reveal_strlit("quantized");
        reveal_with_fuel(tight_from, 10);
        lemma_tight("quantized"@);
    }
    assert(tight("float64"@)) by {
        reveal_strlit("float64");
        reveal_with_fuel(tight_from, 8);
        lemma_tight("float64"@);
    }
    assert(tight("integer-types"@)) by {
        reveal_strlit("integer-types");
        reveal_with_fuel(tight_from, 14);
        lemma_tight("integer-types"@);
    }
    assert(tight("bool-type"@)) by {
        reveal_strlit("bool-type");
        reveal_with_fuel(tight_from, 10);
        lemma_tight("bool-type"@);
    }
    assert(tight("special-values"@)) by {
        reveal_strlit("special-values");
        reveal_with_fuel(tight_from, 15);
        lemma_tight("special-values"@);
    }
    assert(tight("degenerate-shapes"@)) by {
        reveal_strlit("degenerate-shapes");
        reveal_with_fuel(tight_from, 18);
        lemma_tight("degenerate-shapes"@);
    }
    assert(tight("vary-opset"@)) by {
        reveal_strlit("vary-opset");
        reveal_with_fuel(tight_from, 11);
        lemma_tight("vary-opset"@);
    }
}

proof fn lemma_axis_names_are_tight(b: Bounds, i: int)
    requires
        0 <= i < 12,
    ensures
        tight(b.axis_list()[i].0),
{
    lemma_literals_are_tight();
    assert(i == 0 || i == 1 || i == 2 || i == 3 || i == 4 || i == 5 || i == 6 || i == 7 || i == 8
        || i == 9 || i == 10 || i == 11);
}

proof fn lemma_bound_is_tight(name: Seq<char>, value: Seq<char>)
    requires
        tight(name),
        tight(value),
    ensures
        tight(bound_text(name, value)),
{
    reveal_strlit("=");
}

proof fn lemma_parts_are_tight(b: Bounds, i: int)
    requires
        0 <= i < 18,
    ensures
        b.part_list().len() == 18,
        tight(b.part_list()[i]),
{
    if i < 12 {
        lemma_axis_names_are_tight(b, i);
        reveal_strlit("=on");
        reveal_strlit("=off");
        assert(b.part_list()[i] == switch_text(b.axis_list()[i].0, b.axis_list()[i].1));
    } else if i < 17 {
        let scalar = b.scalar_list()[i - 12];
        assert(b.part_list()[i] == bound_text(scalar.0, scalar.1));
        if i == 12 {
            reveal_strlit("max-rank");
            assert(tight_from("max-rank"@, 0)) by {
                reveal_with_fuel(tight_from, 9);
            }
            lemma_tight("max-rank"@);
        }
        if i == 13 {
            reveal_strlit("max-dim");
            assert(tight_from("max-dim"@, 0)) by {
                reveal_with_fuel(tight_from, 8);
            }
            lemma_tight("max-dim"@);
        }
        if i == 14 {
            reveal_strlit("element-budget");
            assert(tight_from("element-budget"@, 0)) by {
                reveal_with_fuel(tight_from, 15);
            }
            lemma_tight("element-budget"@);
        }
        if i == 15 {
            reveal_strlit("special-rate");
            assert(tight_from("special-rate"@, 0)) by {
                reveal_with_fuel(tight_from, 13);
            }
            lemma_tight("special-rate"@);
        }
        if i == 16 {
            reveal_strlit("opset");
            assert(tight_from("opset"@, 0)) by {
                reveal_with_fuel(tight_from, 6);
            }
            lemma_tight("opset"@);
        }
        lemma_digits_are_tight(b.max_rank as nat, 10);
        lemma_integer_is_tight(b.max_dim as int);
        lemma_digits_are_tight(b.element_budget as nat, 10);
        lemma_rate_is_tight(b.special_value_rate as nat);
        lemma_integer_is_tight(b.opset as int);
        lemma_bound_is_tight(scalar.0, scalar.1);
    } else {
        reveal_strlit("logic");
        assert(tight_from("logic"@, 0)) by {
            reveal_with_fuel(tight_from, 6);
        }
        lemma_tight("logic"@);
        lemma_digits_are_tight(GENERATOR_FINGERPRINT as nat, 16);
        assert(tight(hex_text(GENERATOR_FINGERPRINT as nat, 8)));
        lemma_bound_is_tight("logic"@, hex_text(GENERATOR_FINGERPRINT as nat, 8));
        assert(b.part_list()[17] == bound_text(
            "logic"@,
            hex_text(GENERATOR_FINGERPRINT as nat, 8),
        ));
    }
}

/// Configurations that differ in anything never share an identity, so that what was drawn from one
/// is never taken for a sample of the other.
pub proof fn lemma_identities_tell_configurations_apart(a: Bounds, b: Bounds)
    requires
        a.description_text() == b.description_text(),
    ensures
        a == b,
{
    let s = a.part_list();
    let t = b.part_list();
    lemma_parts_are_tight(a, 0);
    lemma_parts_are_tight(b, 0);
    assert forall|i: int| 0 <= i < s.len() implies tight(#[trigger] s[i]) by {
        lemma_parts_are_tight(a, i);
    }
    assert forall|i: int| 0 <= i < t.len() implies tight(#[trigger] t[i]) by {
        lemma_parts_are_tight(b, i);
    }
    lemma_joins_are_told_apart(s, t);
    assert forall|i: int| 0 <= i < 12 implies a.axis_list()[i].1 == (#[trigger] b.axis_list()[i]).1 by {
        assert(s[i] == t[i]);
        assert(s[i] == switch_text(a.axis_list()[i].0, a.axis_list()[i].1));
        assert(t[i] == switch_text(b.axis_list()[i].0, b.axis_list()[i].1));
        lemma_same_axis_names(a, b, i);
        lemma_switches_are_told_apart(a.axis_list()[i].0, a.axis_list()[i].1, b.axis_list()[i].1);
    }
    lemma_same_switches(a, b);
    assert forall|i: int| 0 <= i < 5 implies a.scalar_list()[i].1 == (#[trigger] b.scalar_list()[i]).1 by {
        assert(s[12 + i] == t[12 + i]);
        assert(s[12 + i] == bound_text(a.scalar_list()[i].0, a.scalar_list()[i].1));
        assert(t[12 + i] == bound_text(b.scalar_list()[i].0, b.scalar_list()[i].1));
        lemma_same_scalar_names(a, b, i);
        lemma_bounds_are_told_apart(
            a.scalar_list()[i].0,
            a.scalar_list()[i].1,
            b.scalar_list()[i].1,
        );
    }
    assert(a.scalar_list()[0].1 == b.scalar_list()[0].1);
    assert(a.scalar_list()[1].1 == b.scalar_list()[1].1);
    assert(a.scalar_list()[2].1 == b.scalar_list()[2].1);
    assert(a.scalar_list()[3].1 == b.scalar_list()[3].1);
    assert(a.scalar_list()[4].1 == b.scalar_list()[4].1);
    lemma_digits_tell_numbers_apart(a.max_rank as nat, b.max_rank as nat, 10);
    lemma_integers_are_told_apart(a.max_dim as int, b.max_dim as int);
    lemma_digits_tell_numbers_apart(a.element_budget as nat, b.element_budget as nat, 10);
    lemma_rates_are_told_apart(a.special_value_rate as nat, b.special_value_rate as nat);
    lemma_integers_are_told_apart(a.opset as int, b.opset as int);
}

proof fn lemma_same_axis_names(a: Bounds, b: Bounds, i: int)
    requires
        0 <= i < 12,
    ensures
        a.axis_list()[i].0 == b.axis_list()[i].0,
{
    assert(i == 0 || i == 1 || i == 2 || i == 3 || i == 4 || i == 5 || i == 6 || i == 7 || i == 8
        || i == 9 || i == 10 || i == 11);
}

proof fn lemma_same_scalar_names(a: Bounds, b: Bounds, i: int)
    requires
        0 <= i < 5,
    ensures
        a.scalar_list()[i].0 == b.scalar_list()[i].0,
{
    assert(i == 0 || i == 1 || i == 2 || i == 3 || i == 4);
}

proof fn lemma_same_switches(a: Bounds, b: Bounds)
    requires
        forall|i: int|
            0 <= i < 12 ==> a.axis_list()[i].1 == (#[trigger] b.axis_list()[i]).1,
    ensures
        a.float_elementwise == b.float_elementwise,
        a.comparisons == b.comparisons,
        a.logical == b.logical,
        a.structural == b.structural,
        a.quantized == b.quantized,
        a.shape_input_operators == b.shape_input_operators,
        a.float64 == b.float64,
        a.integer_types == b.integer_types,
        a.bool_type == b.bool_type,
        a.special_values == b.special_values,
        a.degenerate_shapes == b.degenerate_shapes,
        a.vary_opset == b.vary_opset,
{
    assert(a.axis_list()[0].1 == b.axis_list()[0].1);
    assert(a.axis_list()[1].1 == b.axis_list()[1].1);
    assert(a.axis_list()[2].1 == b.axis_list()[2].1);
    assert(a.axis_list()[3].1 == b.axis_list()[3].1);
    assert(a.axis_list()[4].1 == b.axis_list()[4].1);
    assert(a.axis_list()[5].1 == b.axis_list()[5].1);
    assert(a.axis_list()[6].1 == b.axis_list()[6].1);
    assert(a.axis_list()[7].1 == b.axis_list()[7].1);
    assert(a.axis_list()[8].1 == b.axis_list()[8].1);
    assert(a.axis_list()[9].1 == b.axis_list()[9].1);
    assert(a.axis_list()[10].1 == b.axis_list()[10].1);
    assert(a.axis_list()[11].1 == b.axis_list()[11].1);
}

} // verus!
