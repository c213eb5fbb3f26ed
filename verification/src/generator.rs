//! Producing legal cases from a seed.

use vstd::prelude::*;

use crate::attrs::AttrModel;
use crate::bits::f32_is_finite;
use crate::case::{any_negative, product, product_fits, CaseModel, ElemType, InputRole};
use crate::case::{OnnxCase, OpKind, TensorModel, TensorValue};
use crate::gen_case::{generate_case, generated, has_target, usable};
use crate::gen_shape::{lemma_power_grows, power, rate_of, rate_text, Bounds, DEFAULT_OPSET};
use crate::gen_value::{draw_single, lemma_grid_values_are_tame, single_between, singles_from};
use crate::gen_value::{REACH, SPECIAL_F32};
use crate::ops::{copy_dims, sample_inputs, Family};
use crate::rng::SeededRng;
use crate::shapes::element_count;
use crate::text::{decimal, decimal_text, integer, integer_text, join, join_text, texts};
use crate::validation::{free_of, input_name, input_name_text, names_hold, valid, Problem};

verus! {

/// A generator of cases. With a configuration it draws whatever that permits; without one it draws
/// single-precision tensors of one shape.
#[derive(Debug)]
pub struct OnnxGenerator {
    /// The operators that may be produced.
    pub operators: Vec<OpKind>,
    pub max_rank: usize,
    pub max_dim: i64,
    /// How many values in a hundred are special.
    pub special_value_rate: u32,
    pub opset: i64,
    /// The configuration, if there is one.
    pub bounds: Option<Bounds>,
}

/// Whether an operator takes single-precision tensors of one shape.
pub open spec fn plain(op: OpKind, opset: i64) -> bool {
    &&& op.family() == Family::UnaryElementwise || op.family() == Family::BinaryElementwise
        || op.family() == Family::Comparison
    &&& op.admits(ElemType::F32, opset)
}

/// The names of operators, in order.
pub open spec fn operator_names(ops: Seq<OpKind>) -> Seq<Seq<char>> {
    Seq::new(ops.len(), |i: int| ops[i].text())
}

/// How a generator is written.
pub open spec fn generator_text(g: OnnxGenerator) -> Seq<char> {
    "ops=["@ + join_text(operator_names(g.operators@), ","@) + "] max_rank="@ + decimal_text(
        g.max_rank as nat,
    ) + " max_dim="@ + integer_text(g.max_dim as int) + " special_rate="@ + rate_text(
        g.special_value_rate as nat,
    ) + " opset="@ + integer_text(g.opset as int)
}

/// Whether a case is one that is drawn without a configuration.
pub open spec fn plain_case(c: CaseModel, g: OnnxGenerator) -> bool {
    &&& g.operators@.contains(c.op)
    &&& c.opset == g.opset
    &&& c.attrs == Seq::<(Seq<char>, AttrModel)>::empty()
    &&& c.inputs.len() == c.op.sample_arity()
    &&& forall|i: int| 0 <= i < c.inputs.len() ==> plain_input(#[trigger] c.inputs[i], i, c, g)
}

/// Whether every value is a special one.
pub open spec fn all_special(v: Seq<u32>) -> bool {
    forall|k: int| 0 <= k < v.len() ==> SPECIAL_F32@.contains(#[trigger] v[k])
}

/// Whether an input is one that is drawn without a configuration.
pub open spec fn plain_input(t: TensorModel, i: int, c: CaseModel, g: OnnxGenerator) -> bool {
    &&& t.name == input_name_text(i as nat)
    &&& t.role == InputRole::Data
    &&& t.dims == c.inputs[0].dims
    &&& t.dims.len() <= g.max_rank
    &&& forall|k: int| 0 <= k < t.dims.len() ==> 0 <= #[trigger] t.dims[k] <= g.max_dim
    &&& t.data is F32
    &&& t.data.len() == product(t.dims)
    &&& if g.special_value_rate == 0 {
        singles_from(t.data->F32_0, Seq::empty(), -REACH, REACH as int)
    } else {
        singles_from(t.data->F32_0, SPECIAL_F32@, -REACH, REACH as int)
    }
    &&& g.special_value_rate == 100 ==> all_special(t.data->F32_0)
}

impl OnnxGenerator {
    /// Whether the generator can draw a case on this machine.
    pub open spec fn ready(self) -> bool {
        &&& 0 < self.operators@.len() <= i64::MAX
        &&& match self.bounds {
            Some(b) => {
                &&& usable(b)
                &&& forall|i: int|
                    0 <= i < self.operators@.len() ==> b.offers(#[trigger] self.operators@[i]) && (
                    self.operators@[i].family() == Family::Cast ==> b.types().len() > 1)
            },
            None => {
                &&& self.special_value_rate <= 100
                &&& self.max_rank <= i64::MAX
                &&& self.max_dim >= 0
                &&& power(self.max_dim as nat, self.max_rank as nat) <= i64::MAX
                &&& power(self.max_dim as nat, self.max_rank as nat) <= usize::MAX
            },
        }
    }

    /// Whether a case is one that the generator can draw.
    pub open spec fn draws(self, c: CaseModel) -> bool {
        &&& self.operators@.contains(c.op)
        &&& match self.bounds {
            Some(b) => valid(c) && exists|elem: ElemType|
                b.types().contains(elem) && #[trigger] generated(c, c.op, elem, b),
            None => plain_case(c, self) && (plain(c.op, self.opset) ==> valid(c)),
        }
    }

    /// Whether a configuration permits an operator. A cast needs a second type to cast to.
    pub open spec fn permits(bounds: Bounds) -> spec_fn(OpKind) -> bool {
        |op: OpKind|
            bounds.offers(op) && (op.family() == Family::Cast ==> bounds.types().len() > 1)
    }

    /// A generator that draws whatever a configuration permits.
    pub fn new(bounds: Bounds) -> (r: Self)
        ensures
            r.bounds == Some(bounds),
            r.max_rank == bounds.max_rank,
            r.max_dim == bounds.max_dim,
            r.special_value_rate == bounds.special_value_rate,
            r.opset == bounds.opset,
            r.operators@ == OpKind::ALL@.filter(Self::permits(bounds)),
            forall|i: int|
                0 <= i < r.operators@.len() ==> bounds.offers(#[trigger] r.operators@[i]) && (
                r.operators@[i].family() == Family::Cast ==> bounds.types().len() > 1),
    {
        let types: usize = bounds.element_types().len();
        let ghost f = Self::permits(bounds);
        let mut operators: Vec<OpKind> = Vec::new();
        proof {
            reveal(Seq::filter);
        }
        assert(OpKind::ALL@.take(0).filter(f) =~= Seq::empty());
        let mut k: usize = 0;
        while k < 37
            invariant
                k <= 37,
                OpKind::ALL@.len() == 37,
                types == bounds.types().len(),
                f == Self::permits(bounds),
                operators@ == OpKind::ALL@.take(k as int).filter(f),
            decreases 37 - k,
        {
            let op: OpKind = OpKind::ALL[k];
            proof {
                assert(OpKind::ALL@.take(k + 1) =~= OpKind::ALL@.take(k as int).push(op));
                OpKind::ALL@.take(k as int).lemma_filter_push(op, f);
            }
            if bounds.offers_operator(op) && (types > 1 || op != OpKind::Cast) {
                operators.push(op);
            }
            k += 1;
        }
        assert(OpKind::ALL@.take(37) =~= OpKind::ALL@);
        assert forall|i: int| 0 <= i < operators@.len() implies f(#[trigger] operators@[i]) by {
            OpKind::ALL@.lemma_filter_pred(f, i);
        }
        OnnxGenerator {
            operators,
            max_rank: bounds.max_rank,
            max_dim: bounds.max_dim,
            special_value_rate: bounds.special_value_rate,
            opset: bounds.opset,
            bounds: Some(bounds),
        }
    }

    /// The generator without special values: the baseline for what they bring.
    pub fn without_special_values() -> (r: Self)
        ensures
            r.operators@ == OpKind::ELEMENTWISE@,
            r.max_rank == 3 && r.max_dim == 4 && r.special_value_rate == 0 && r.opset == 22,
            r.bounds is None,
            r.ready(),
    {
        let mut r: OnnxGenerator = OnnxGenerator::default();
        r.special_value_rate = 0;
        r
    }

    /// The configuration, as one line. A seed identifies a case only together with it.
    pub fn describe(&self) -> (r: String)
        ensures
            r@ == generator_text(*self),
    {
        let mut names: Vec<String> = Vec::new();
        let mut i: usize = 0;
        while i < self.operators.len()
            invariant
                i <= self.operators.len(),
                names.len() == i,
                forall|k: int| 0 <= k < i ==> (#[trigger] names@[k])@ == self.operators@[k].text(),
            decreases self.operators.len() - i,
        {
            names.push(self.operators[i].onnx_name().to_owned());
            i += 1;
        }
        assert(texts(names@) =~= operator_names(self.operators@));
        let mut out: String = "ops=[".to_owned();
        out.append(join(&names, ",").as_str());
        out.append("] max_rank=");
        out.append(decimal(self.max_rank as u64).as_str());
        out.append(" max_dim=");
        out.append(integer(self.max_dim).as_str());
        out.append(" special_rate=");
        out.append(rate_of(self.special_value_rate).as_str());
        out.append(" opset=");
        out.append(integer(self.opset).as_str());
        out
    }

    /// One value: special that many times in a hundred, else ordinary.
    fn value(&self, rng: &mut SeededRng) -> (r: u32)
        requires
            self.special_value_rate <= 100,
        ensures
            single_between(r, -REACH, REACH as int) || (self.special_value_rate > 0
                && SPECIAL_F32@.contains(r)),
            self.special_value_rate == 100 ==> SPECIAL_F32@.contains(r),
    {
        if rng.percent(self.special_value_rate) {
            let at: usize = rng.index(10);
            assert(SPECIAL_F32@.contains(SPECIAL_F32@[at as int]));
            SPECIAL_F32[at]
        } else {
            draw_single(-REACH, REACH, rng)
        }
    }

    /// Values for one tensor.
    fn values(&self, count: usize, rng: &mut SeededRng) -> (r: Vec<u32>)
        requires
            self.special_value_rate <= 100,
        ensures
            r.len() == count,
            self.special_value_rate == 0 ==> singles_from(
                r@,
                Seq::empty(),
                -REACH,
                REACH as int,
            ),
            singles_from(r@, SPECIAL_F32@, -REACH, REACH as int),
            self.special_value_rate == 100 ==> all_special(r@),
    {
        let mut out: Vec<u32> = Vec::new();
        while out.len() < count
            invariant
                out.len() <= count,
                self.special_value_rate <= 100,
                self.special_value_rate == 0 ==> singles_from(
                    out@,
                    Seq::empty(),
                    -REACH,
                    REACH as int,
                ),
                singles_from(out@, SPECIAL_F32@, -REACH, REACH as int),
                self.special_value_rate == 100 ==> all_special(out@),
            decreases count - out.len(),
        {
            out.push(self.value(rng));
        }
        out
    }

    /// A shape: any rank up to the greatest, any extents up to the greatest. Scalars and extents of
    /// zero are among them.
    fn plain_shape(&self, rng: &mut SeededRng) -> (r: Vec<i64>)
        requires
            self.max_rank <= i64::MAX,
            self.max_dim >= 0,
            power(self.max_dim as nat, self.max_rank as nat) <= i64::MAX,
            power(self.max_dim as nat, self.max_rank as nat) <= usize::MAX,
        ensures
            r.len() <= self.max_rank,
            forall|k: int| 0 <= k < r.len() ==> 0 <= #[trigger] r@[k] <= self.max_dim,
            !any_negative(r@),
            product_fits(r@),
            product(r@) <= usize::MAX,
    {
        let rank: usize = rng.between(0, self.max_rank as i64) as usize;
        let mut dims: Vec<i64> = Vec::new();
        while dims.len() < rank
            invariant
                dims.len() <= rank,
                self.max_dim >= 0,
                forall|k: int| 0 <= k < dims.len() ==> 0 <= #[trigger] dims@[k] <= self.max_dim,
            decreases rank - dims.len(),
        {
            dims.push(rng.between(0, self.max_dim));
        }
        proof {
            lemma_small_product(dims@, self.max_dim as nat, self.max_rank as nat);
        }
        dims
    }

    /// A case of single-precision tensors of one shape.
    fn generate_plain(&self, rng: &mut SeededRng) -> (r: OnnxCase)
        requires
            self.ready(),
            self.bounds is None,
        ensures
            plain_case(r@, *self),
    {
        let op: OpKind = self.operators[rng.index(self.operators.len())];
        let dims: Vec<i64> = self.plain_shape(rng);
        let count: usize = element_count(&dims);
        let total: usize = sample_inputs(op);
        let mut inputs: Vec<TensorValue> = Vec::new();
        while inputs.len() < total
            invariant
                inputs.len() <= total <= 4,
                self.special_value_rate <= 100,
                count == product(dims@),
                forall|k: int|
                    0 <= k < inputs.len() ==> {
                        &&& (#[trigger] inputs@[k])@.name == input_name_text(k as nat)
                        &&& inputs@[k]@.role == InputRole::Data
                        &&& inputs@[k]@.dims == dims@
                        &&& inputs@[k]@.data is F32
                        &&& inputs@[k]@.data.len() == count
                        &&& self.special_value_rate == 0 ==> singles_from(
                            inputs@[k]@.data->F32_0,
                            Seq::empty(),
                            -REACH,
                            REACH as int,
                        )
                        &&& singles_from(
                            inputs@[k]@.data->F32_0,
                            SPECIAL_F32@,
                            -REACH,
                            REACH as int,
                        )
                        &&& self.special_value_rate == 100 ==> all_special(
                            inputs@[k]@.data->F32_0,
                        )
                    },
            decreases total - inputs.len(),
        {
            let values: Vec<u32> = self.values(count, rng);
            let name: String = input_name(inputs.len());
            inputs.push(TensorValue::from_f32(name.as_str(), copy_dims(&dims), values));
        }
        let r: OnnxCase = OnnxCase::new(op, self.opset, inputs);
        proof {
            assert(self.operators@.contains(op));
            assert(r@.attrs =~= Seq::empty());
            assert forall|i: int| 0 <= i < r@.inputs.len() implies plain_input(
                #[trigger] r@.inputs[i],
                i,
                r@,
                *self,
            ) by {
                assert(r@.inputs[i] == inputs@[i]@);
                assert(r@.inputs[0] == inputs@[0]@);
            }
        }
        r
    }

    /// Draws one case. It is legal by construction.
    pub fn generate(&self, rng: &mut SeededRng) -> (r: OnnxCase)
        requires
            self.ready(),
        ensures
            self.draws(r@),
    {
        match &self.bounds {
            None => {
                let r: OnnxCase = self.generate_plain(rng);
                proof {
                    if plain(r@.op, self.opset) {
                        lemma_plain_cases_are_valid(r@, *self);
                    }
                }
                r
            },
            Some(bounds) => {
                let at: usize = rng.index(self.operators.len());
                let op: OpKind = self.operators[at];
                assert(bounds.offers(self.operators@[at as int]));
                let types: Vec<ElemType> = bounds.admitted_types(op);
                let which: usize = rng.index(types.len());
                let elem: ElemType = types[which];
                proof {
                    let f = |t: ElemType| op.data_types().contains(t);
                    bounds.types().lemma_filter_pred(f, which as int);
                    bounds.types().lemma_filter_contains_rev(f, elem);
                    assert(op.admits(elem, bounds.opset));
                    if bounds.types().len() > 1 {
                        lemma_two_types(*bounds, elem);
                    }
                }
                let case: OnnxCase = generate_case(op, elem, bounds, rng).unwrap();
                assert(self.operators@.contains(op));
                assert(generated(case@, case@.op, elem, *bounds));
                case
            },
        }
    }
}

impl Default for OnnxGenerator {
    fn default() -> (r: Self)
        ensures
            r.operators@ == OpKind::ELEMENTWISE@,
            r.max_rank == 3 && r.max_dim == 4 && r.special_value_rate == 25 && r.opset == 22,
            r.bounds is None,
            r.ready(),
    {
        let operators: Vec<OpKind> = vec![
            OpKind::ELEMENTWISE[0],
            OpKind::ELEMENTWISE[1],
            OpKind::ELEMENTWISE[2],
            OpKind::ELEMENTWISE[3],
        ];
        assert(operators@ =~= OpKind::ELEMENTWISE@);
        assert(power(4, 3) == 64) by {
            reveal_with_fuel(power, 4);
        }
        OnnxGenerator {
            operators,
            max_rank: 3,
            max_dim: 4,
            special_value_rate: 25,
            opset: DEFAULT_OPSET,
            bounds: None,
        }
    }
}

proof fn lemma_power_of_one(n: nat)
    ensures
        power(1, n) == 1,
    decreases n,
{
    if n > 0 {
        lemma_power_of_one((n - 1) as nat);
    }
}

proof fn lemma_bounded_product(dims: Seq<i64>, bound: nat)
    requires
        bound >= 1,
        forall|k: int| 0 <= k < dims.len() ==> 0 <= #[trigger] dims[k] <= bound,
    ensures
        0 <= product(dims) <= power(bound, dims.len()),
    decreases dims.len(),
{
    if dims.len() > 0 {
        let front = dims.drop_last();
        assert forall|k: int| 0 <= k < front.len() implies 0 <= #[trigger] front[k] <= bound by {
            assert(dims[k] <= bound);
        }
        lemma_bounded_product(front, bound);
        assert(0 <= dims.last() <= bound);
        assert(0 <= product(front) * dims.last() <= bound * power(bound, front.len()))
            by (nonlinear_arith)
            requires
                0 <= product(front) <= power(bound, front.len()),
                0 <= dims.last() <= bound,
        ;
    }
}

proof fn lemma_small_product(dims: Seq<i64>, bound: nat, rank: nat)
    requires
        dims.len() <= rank,
        power(bound, rank) <= i64::MAX,
        power(bound, rank) <= usize::MAX,
        forall|k: int| 0 <= k < dims.len() ==> 0 <= #[trigger] dims[k] <= bound,
    ensures
        product_fits(dims),
        product(dims) <= usize::MAX,
{
    let wide: nat = if bound >= 1 {
        bound
    } else {
        1
    };
    lemma_power_of_one(rank);
    assert forall|k: int| 0 <= k <= dims.len() implies 0 <= product(#[trigger] dims.take(k))
        <= power(wide, rank) by {
        let front = dims.take(k);
        assert forall|j: int| 0 <= j < front.len() implies 0 <= #[trigger] front[j] <= wide by {
            assert(dims[j] <= bound);
        }
        lemma_bounded_product(front, wide);
        lemma_power_grows(wide, front.len(), rank);
    }
    assert(dims.take(dims.len() as int) =~= dims);
}

proof fn lemma_two_types(b: Bounds, elem: ElemType)
    requires
        b.types().len() > 1,
    ensures
        has_target(b, elem),
{
    assert(b.types()[0] == ElemType::F32);
    assert(b.types()[1] != ElemType::F32);
    if elem == ElemType::F32 {
        assert(b.types()[1] != elem);
    } else {
        assert(b.types()[0] != elem);
    }
}

/// A case that is drawn without a configuration is legal for every operator that takes
/// single-precision tensors of one shape.
pub proof fn lemma_plain_cases_are_valid(c: CaseModel, g: OnnxGenerator)
    requires
        plain_case(c, g),
        plain(c.op, g.opset),
    ensures
        valid(c),
{
    assert forall|i: int, j: int| 0 <= i < j < c.inputs.len() implies (#[trigger] c.inputs[i]).name
        != (#[trigger] c.inputs[j]).name by {
        assert(plain_input(c.inputs[i], i, c, g) && plain_input(c.inputs[j], j, c, g));
        assert(input_name_text(i as nat)[0] == (97 + i) as char);
        assert(input_name_text(j as nat)[0] == (97 + j) as char);
    }
    assert forall|i: int| 0 <= i < c.inputs.len() implies !any_negative(
        (#[trigger] c.inputs[i]).dims,
    ) by {
        assert(plain_input(c.inputs[i], i, c, g));
    }
    assert(plain_input(c.inputs[0], 0, c, g));
    assert(names_hold(c));
    assert forall|p: Problem| #[trigger] free_of(c, p) by {}
}

/// With a rate of zero no special value is drawn: every value is finite.
pub proof fn lemma_the_baseline_has_no_special_values(c: CaseModel, g: OnnxGenerator, i: int, k: int)
    requires
        plain_case(c, g),
        g.special_value_rate == 0,
        0 <= i < c.inputs.len(),
        0 <= k < c.inputs[i].data.len(),
    ensures
        c.inputs[i].data is F32,
        f32_is_finite(c.inputs[i].data->F32_0[k]),
{
    assert(plain_input(c.inputs[i], i, c, g));
    lemma_grid_values_are_tame(c.inputs[i].data->F32_0[k], -REACH, REACH as int);
}

} // verus!
