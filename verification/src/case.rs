//! The case: one operator, its inputs and its attributes.
//!
//! A case is what everything else is about. It is small enough to minimise, to store beside a
//! finding and to read in a report, and it replays without the generator that made it.

use vstd::prelude::*;

use crate::attrs::{AttrModel, Attrs};
use crate::bits::{f32_abs, f32_is_finite, f64_abs, f64_is_finite};
use crate::bits::{le_bytes, le_value, lemma_le_bytes_len, lemma_le_round_trip, lemma_pow256};
use crate::bits::{lemma_le_value_bound, pow256, push_le, read_le};
use crate::bits::{signed32, signed64, signed8, to_signed32, to_signed64, to_signed8};
use crate::bits::{to_unsigned32, to_unsigned64, to_unsigned8, unsigned32, unsigned64, unsigned8};
use crate::text::same_text;

verus! {

// ---- element types ----

/// The type of a tensor's elements.
#[derive(Debug, Clone, Copy, PartialEq, Eq, Hash, PartialOrd, Ord, Structural)]
pub enum ElemType {
    F32,
    F64,
    I32,
    I64,
    Bool,
    I8,
    U8,
}

impl ElemType {
    /// Every element type.
    pub const ALL: [ElemType; 7] = [
        ElemType::F32,
        ElemType::F64,
        ElemType::I32,
        ElemType::I64,
        ElemType::Bool,
        ElemType::I8,
        ElemType::U8,
    ];

    /// The types a value can be quantized to.
    pub const QUANTIZED: [ElemType; 2] = [ElemType::I8, ElemType::U8];

    /// ONNX's number for the type (`TensorProto.DataType`).
    pub open spec fn wire_number(self) -> i32 {
        match self {
            ElemType::F32 => 1,
            ElemType::U8 => 2,
            ElemType::I8 => 3,
            ElemType::I32 => 6,
            ElemType::I64 => 7,
            ElemType::Bool => 9,
            ElemType::F64 => 11,
        }
    }

    /// The type with a given number.
    pub open spec fn of_wire(wire: i32) -> Option<ElemType> {
        match wire {
            1 => Some(ElemType::F32),
            2 => Some(ElemType::U8),
            3 => Some(ElemType::I8),
            6 => Some(ElemType::I32),
            7 => Some(ElemType::I64),
            9 => Some(ElemType::Bool),
            11 => Some(ElemType::F64),
            _ => None,
        }
    }

    pub open spec fn floating(self) -> bool {
        self == ElemType::F32 || self == ElemType::F64
    }

    /// The name of the type.
    pub open spec fn text(self) -> Seq<char> {
        match self {
            ElemType::F32 => "F32"@,
            ElemType::F64 => "F64"@,
            ElemType::I32 => "I32"@,
            ElemType::I64 => "I64"@,
            ElemType::Bool => "Bool"@,
            ElemType::I8 => "I8"@,
            ElemType::U8 => "U8"@,
        }
    }

    /// How many bytes one element takes.
    pub open spec fn width(self) -> nat {
        match self {
            ElemType::F32 => 4,
            ElemType::F64 => 8,
            ElemType::I32 => 4,
            ElemType::I64 => 8,
            ElemType::Bool => 1,
            ElemType::I8 => 1,
            ElemType::U8 => 1,
        }
    }

    /// Where the type stands in the order of declaration.
    pub open spec fn position(self) -> nat {
        match self {
            ElemType::F32 => 0,
            ElemType::F64 => 1,
            ElemType::I32 => 2,
            ElemType::I64 => 3,
            ElemType::Bool => 4,
            ElemType::I8 => 5,
            ElemType::U8 => 6,
        }
    }

    /// ONNX's number for the type.
    pub fn wire(self) -> (r: i32)
        ensures
            r == self.wire_number(),
    {
        match self {
            ElemType::F32 => 1,
            ElemType::U8 => 2,
            ElemType::I8 => 3,
            ElemType::I32 => 6,
            ElemType::I64 => 7,
            ElemType::Bool => 9,
            ElemType::F64 => 11,
        }
    }

    /// The type with a given number, or `None` for one this library does not hold.
    pub fn from_wire(wire: i32) -> (r: Option<ElemType>)
        ensures
            r == ElemType::of_wire(wire),
            r matches Some(t) ==> t.wire_number() == wire,
            r is None ==> forall|t: ElemType| #[trigger] t.wire_number() != wire,
    {
        match wire {
            1 => Some(ElemType::F32),
            2 => Some(ElemType::U8),
            3 => Some(ElemType::I8),
            6 => Some(ElemType::I32),
            7 => Some(ElemType::I64),
            9 => Some(ElemType::Bool),
            11 => Some(ElemType::F64),
            _ => None,
        }
    }

    pub fn is_floating(self) -> (r: bool)
        ensures
            r == self.floating(),
    {
        match self {
            ElemType::F32 | ElemType::F64 => true,
            _ => false,
        }
    }

    /// The range a quantized value saturates to, for the types a value can be quantized to.
    pub open spec fn saturation(self) -> Option<(i64, i64)> {
        match self {
            ElemType::I8 => Some((-128i64, 127i64)),
            ElemType::U8 => Some((0i64, 255i64)),
            _ => None,
        }
    }

    /// The range a quantized value saturates to, for the types a value can be quantized to.
    pub fn saturation_range(self) -> (r: Option<(i64, i64)>)
        ensures
            r == self.saturation(),
    {
        match self {
            ElemType::I8 => Some((-128, 127)),
            ElemType::U8 => Some((0, 255)),
            _ => None,
        }
    }

    /// The name of the type, for reports.
    pub fn name(self) -> (r: &'static str)
        ensures
            r@ == self.text(),
    {
        match self {
            ElemType::F32 => "F32",
            ElemType::F64 => "F64",
            ElemType::I32 => "I32",
            ElemType::I64 => "I64",
            ElemType::Bool => "Bool",
            ElemType::I8 => "I8",
            ElemType::U8 => "U8",
        }
    }
}

/// A type is recovered from its number.
pub proof fn lemma_wire_round_trip(t: ElemType)
    ensures
        ElemType::of_wire(t.wire_number()) == Some(t),
{
}

/// Every element type is listed.
pub proof fn lemma_every_elem_type_is_listed(t: ElemType)
    ensures
        t.position() < 7,
        ElemType::ALL[t.position() as int] == t,
{
}

// ---- tensor contents ----

/// The elements of a tensor. Floating-point elements are held as bit patterns.
#[derive(Debug, PartialEq, Eq)]
pub enum TensorData {
    F32(Vec<u32>),
    F64(Vec<u64>),
    I32(Vec<i32>),
    I64(Vec<i64>),
    Bool(Vec<bool>),
    I8(Vec<i8>),
    U8(Vec<u8>),
}

/// What a [`TensorData`] holds.
#[verifier::ext_equal]
pub enum DataModel {
    F32(Seq<u32>),
    F64(Seq<u64>),
    I32(Seq<i32>),
    I64(Seq<i64>),
    Bool(Seq<bool>),
    I8(Seq<i8>),
    U8(Seq<u8>),
}

impl View for TensorData {
    type V = DataModel;

    open spec fn view(&self) -> DataModel {
        match self {
            TensorData::F32(v) => DataModel::F32(v@),
            TensorData::F64(v) => DataModel::F64(v@),
            TensorData::I32(v) => DataModel::I32(v@),
            TensorData::I64(v) => DataModel::I64(v@),
            TensorData::Bool(v) => DataModel::Bool(v@),
            TensorData::I8(v) => DataModel::I8(v@),
            TensorData::U8(v) => DataModel::U8(v@),
        }
    }
}

impl DataModel {
    pub open spec fn elem_type(self) -> ElemType {
        match self {
            DataModel::F32(_) => ElemType::F32,
            DataModel::F64(_) => ElemType::F64,
            DataModel::I32(_) => ElemType::I32,
            DataModel::I64(_) => ElemType::I64,
            DataModel::Bool(_) => ElemType::Bool,
            DataModel::I8(_) => ElemType::I8,
            DataModel::U8(_) => ElemType::U8,
        }
    }

    pub open spec fn len(self) -> nat {
        match self {
            DataModel::F32(v) => v.len(),
            DataModel::F64(v) => v.len(),
            DataModel::I32(v) => v.len(),
            DataModel::I64(v) => v.len(),
            DataModel::Bool(v) => v.len(),
            DataModel::I8(v) => v.len(),
            DataModel::U8(v) => v.len(),
        }
    }

    /// The bits of element `i`, zero-extended.
    pub open spec fn bits(self, i: int) -> u64 {
        match self {
            DataModel::F32(v) => v[i] as u64,
            DataModel::F64(v) => v[i],
            DataModel::I32(v) => unsigned32(v[i]),
            DataModel::I64(v) => unsigned64(v[i]),
            DataModel::Bool(v) => if v[i] { 1u64 } else { 0u64 },
            DataModel::I8(v) => unsigned8(v[i]),
            DataModel::U8(v) => v[i] as u64,
        }
    }

    /// The bits of every element.
    pub open spec fn bit_keys(self) -> Seq<u64> {
        Seq::new(self.len(), |i: int| self.bits(i))
    }

    /// Whether there are elements and none of them is a finite number.
    pub open spec fn entirely_undefined(self) -> bool {
        match self {
            DataModel::F32(v) => v.len() > 0 && forall|i: int|
                0 <= i < v.len() ==> !f32_is_finite(#[trigger] v[i]),
            DataModel::F64(v) => v.len() > 0 && forall|i: int|
                0 <= i < v.len() ==> !f64_is_finite(#[trigger] v[i]),
            _ => false,
        }
    }
}

/// The little-endian bytes of a sequence of elements, each `width` bytes wide.
pub open spec fn keys_bytes(keys: Seq<u64>, width: nat) -> Seq<u8>
    decreases keys.len(),
{
    if keys.len() == 0 {
        Seq::empty()
    } else {
        keys_bytes(keys.drop_last(), width) + le_bytes(keys.last() as nat, width)
    }
}

/// The little-endian bytes of a tensor's elements.
pub open spec fn data_bytes(d: DataModel) -> Seq<u8> {
    keys_bytes(d.bit_keys(), d.elem_type().width())
}

/// The number held in the `i`-th group of `width` bytes.
pub open spec fn group_value(bytes: Seq<u8>, width: nat, i: int) -> nat {
    le_value(bytes.subrange(i * width, i * width + width))
}

/// The elements that a run of little-endian bytes stands for. An incomplete element at the end
/// is dropped.
pub open spec fn data_of_bytes(elem: ElemType, bytes: Seq<u8>) -> DataModel {
    let n = bytes.len() / elem.width();
    match elem {
        ElemType::F32 => DataModel::F32(Seq::new(n, |i: int| group_value(bytes, 4, i) as u32)),
        ElemType::F64 => DataModel::F64(Seq::new(n, |i: int| group_value(bytes, 8, i) as u64)),
        ElemType::I32 => DataModel::I32(Seq::new(n, |i: int| signed32(group_value(bytes, 4, i)))),
        ElemType::I64 => DataModel::I64(Seq::new(n, |i: int| signed64(group_value(bytes, 8, i)))),
        ElemType::Bool => DataModel::Bool(Seq::new(n, |i: int| bytes[i] != 0)),
        ElemType::I8 => DataModel::I8(Seq::new(n, |i: int| signed8(bytes[i] as nat))),
        ElemType::U8 => DataModel::U8(bytes),
    }
}

pub proof fn lemma_keys_bytes_len(keys: Seq<u64>, width: nat)
    ensures
        keys_bytes(keys, width).len() == keys.len() * width,
    decreases keys.len(),
{
    if keys.len() > 0 {
        lemma_keys_bytes_len(keys.drop_last(), width);
        lemma_le_bytes_len(keys.last() as nat, width);
        assert((keys.len() - 1) * width + width == keys.len() * width) by (nonlinear_arith);
    } else {
        assert(0 * width == 0) by (nonlinear_arith);
    }
}

pub proof fn lemma_keys_bytes_group(keys: Seq<u64>, width: nat, i: int)
    requires
        0 <= i < keys.len(),
    ensures
        0 <= i * width,
        i * width + width <= keys_bytes(keys, width).len(),
        keys_bytes(keys, width).subrange(i * width, i * width + width) == le_bytes(
            keys[i] as nat,
            width,
        ),
    decreases keys.len(),
{
    let front = keys.drop_last();
    let bytes = keys_bytes(keys, width);
    lemma_keys_bytes_len(keys, width);
    lemma_keys_bytes_len(front, width);
    lemma_le_bytes_len(keys.last() as nat, width);
    assert(0 <= i * width) by (nonlinear_arith)
        requires
            0 <= i,
            0 <= width,
    ;
    assert(i * width + width <= keys.len() * width) by (nonlinear_arith)
        requires
            0 <= i < keys.len(),
            0 <= width,
    ;
    if i == keys.len() - 1 {
        assert(bytes.subrange(i * width, i * width + width) =~= le_bytes(
            keys.last() as nat,
            width,
        ));
    } else {
        lemma_keys_bytes_group(front, width, i);
        assert(bytes.subrange(i * width, i * width + width) =~= keys_bytes(front, width).subrange(
            i * width,
            i * width + width,
        ));
    }
}

proof fn lemma_key_fits(d: DataModel, i: int)
    requires
        0 <= i < d.len(),
    ensures
        d.bits(i) < pow256(d.elem_type().width()),
{
    lemma_pow256();
    match d {
        DataModel::I32(v) => {
            assert(-0x8000_0000 <= v[i] <= 0x7fff_ffff);
        },
        DataModel::I8(v) => {
            assert(-0x80 <= v[i] <= 0x7f);
        },
        _ => {},
    }
}

/// A tensor's elements are recovered from their bytes.
pub proof fn lemma_bytes_round_trip(d: DataModel)
    ensures
        data_of_bytes(d.elem_type(), data_bytes(d)) == d,
{
    let elem = d.elem_type();
    let width = elem.width();
    let bytes = data_bytes(d);
    lemma_keys_bytes_len(d.bit_keys(), width);
    assert(bytes.len() == d.len() * width);
    assert(bytes.len() / width == d.len()) by (nonlinear_arith)
        requires
            bytes.len() == d.len() * width,
            width > 0,
    ;
    assert forall|i: int| 0 <= i < d.len() implies group_value(bytes, width, i) == d.bits(i) by {
        lemma_keys_bytes_group(d.bit_keys(), width, i);
        lemma_key_fits(d, i);
        lemma_le_round_trip(d.bits(i) as nat, width);
    }
    assert forall|i: int| 0 <= i < d.len() && width == 1 implies bytes[i] == d.bits(i) by {
        assert(group_value(bytes, width, i) == d.bits(i));
        let group = bytes.subrange(i * width, i * width + width);
        assert(group =~= seq![bytes[i]]);
        assert(group.skip(1) =~= Seq::<u8>::empty());
        assert(le_value(group.skip(1)) == 0);
        assert(le_value(group) == group[0] as nat);
    }
    match d {
        DataModel::F32(v) => {
            assert forall|i: int| 0 <= i < v.len() implies group_value(bytes, 4, i) as u32 == v[i] by {
                assert(group_value(bytes, width, i) == d.bits(i));
            }
            assert(data_of_bytes(elem, bytes)->F32_0 =~= v);
        },
        DataModel::F64(v) => {
            assert forall|i: int| 0 <= i < v.len() implies group_value(bytes, 8, i) as u64 == v[i] by {
                assert(group_value(bytes, width, i) == d.bits(i));
            }
            assert(data_of_bytes(elem, bytes)->F64_0 =~= v);
        },
        DataModel::I32(v) => {
            assert forall|i: int| 0 <= i < v.len() implies signed32(group_value(bytes, 4, i))
                == v[i] by {
                assert(group_value(bytes, width, i) == d.bits(i));
                assert(-0x8000_0000 <= v[i] <= 0x7fff_ffff);
            }
            assert(data_of_bytes(elem, bytes)->I32_0 =~= v);
        },
        DataModel::I64(v) => {
            assert forall|i: int| 0 <= i < v.len() implies signed64(group_value(bytes, 8, i))
                == v[i] by {
                assert(group_value(bytes, width, i) == d.bits(i));
                assert(-0x8000_0000_0000_0000 <= v[i] <= 0x7fff_ffff_ffff_ffff);
            }
            assert(data_of_bytes(elem, bytes)->I64_0 =~= v);
        },
        DataModel::Bool(v) => {
            assert(data_of_bytes(elem, bytes)->Bool_0 =~= v);
        },
        DataModel::I8(v) => {
            assert forall|i: int| 0 <= i < v.len() implies signed8(bytes[i] as nat) == v[i] by {
                assert(bytes[i] == d.bits(i));
                assert(-0x80 <= v[i] <= 0x7f);
            }
            assert(data_of_bytes(elem, bytes)->I8_0 =~= v);
        },
        DataModel::U8(v) => {
            assert(data_of_bytes(elem, bytes)->U8_0 =~= v);
        },
    }
}

/// Two tensors of one type with the same bits are the same tensor.
pub proof fn lemma_bits_identify_data(a: DataModel, b: DataModel)
    requires
        a.elem_type() == b.elem_type(),
        a.bit_keys() == b.bit_keys(),
    ensures
        a == b,
{
    lemma_bytes_round_trip(a);
    lemma_bytes_round_trip(b);
}

impl Clone for TensorData {
    fn clone(&self) -> (r: Self)
        ensures
            r@ == self@,
    {
        match self {
            TensorData::F32(v) => {
                let c: Vec<u32> = v.clone();
                assert(c@ =~= v@);
                TensorData::F32(c)
            },
            TensorData::F64(v) => {
                let c: Vec<u64> = v.clone();
                assert(c@ =~= v@);
                TensorData::F64(c)
            },
            TensorData::I32(v) => {
                let c: Vec<i32> = v.clone();
                assert(c@ =~= v@);
                TensorData::I32(c)
            },
            TensorData::I64(v) => {
                let c: Vec<i64> = v.clone();
                assert(c@ =~= v@);
                TensorData::I64(c)
            },
            TensorData::Bool(v) => {
                let c: Vec<bool> = v.clone();
                assert(c@ =~= v@);
                TensorData::Bool(c)
            },
            TensorData::I8(v) => {
                let c: Vec<i8> = v.clone();
                assert(c@ =~= v@);
                TensorData::I8(c)
            },
            TensorData::U8(v) => {
                let c: Vec<u8> = v.clone();
                assert(c@ =~= v@);
                TensorData::U8(c)
            },
        }
    }
}

impl TensorData {
    pub fn elem_type(&self) -> (r: ElemType)
        ensures
            r == self@.elem_type(),
    {
        match self {
            TensorData::F32(_) => ElemType::F32,
            TensorData::F64(_) => ElemType::F64,
            TensorData::I32(_) => ElemType::I32,
            TensorData::I64(_) => ElemType::I64,
            TensorData::Bool(_) => ElemType::Bool,
            TensorData::I8(_) => ElemType::I8,
            TensorData::U8(_) => ElemType::U8,
        }
    }

    pub fn len(&self) -> (r: usize)
        ensures
            r == self@.len(),
    {
        match self {
            TensorData::F32(v) => v.len(),
            TensorData::F64(v) => v.len(),
            TensorData::I32(v) => v.len(),
            TensorData::I64(v) => v.len(),
            TensorData::Bool(v) => v.len(),
            TensorData::I8(v) => v.len(),
            TensorData::U8(v) => v.len(),
        }
    }

    pub fn is_empty(&self) -> (r: bool)
        ensures
            r == (self@.len() == 0),
    {
        self.len() == 0
    }

    /// The bits of one element, zero-extended.
    pub fn bit_key(&self, i: usize) -> (r: u64)
        requires
            i < self@.len(),
        ensures
            r == self@.bits(i as int),
    {
        match self {
            TensorData::F32(v) => v[i] as u64,
            TensorData::F64(v) => v[i],
            TensorData::I32(v) => to_unsigned32(v[i]),
            TensorData::I64(v) => to_unsigned64(v[i]),
            TensorData::Bool(v) => if v[i] { 1 } else { 0 },
            TensorData::I8(v) => to_unsigned8(v[i]),
            TensorData::U8(v) => v[i] as u64,
        }
    }

    /// The bits of every element, zero-extended: the form in which tensors are compared.
    pub fn to_bit_keys(&self) -> (r: Vec<u64>)
        ensures
            r@ == self@.bit_keys(),
    {
        let n: usize = self.len();
        let mut out: Vec<u64> = Vec::new();
        let mut i: usize = 0;
        while i < n
            invariant
                i <= n,
                n == self@.len(),
                out@ == self@.bit_keys().take(i as int),
            decreases n - i,
        {
            out.push(self.bit_key(i));
            assert(self@.bit_keys().take(i + 1) =~= self@.bit_keys().take(i as int).push(
                self@.bits(i as int),
            ));
            i += 1;
        }
        assert(self@.bit_keys().take(n as int) =~= self@.bit_keys());
        out
    }

    /// The elements as little-endian bytes.
    pub fn to_le_bytes(&self) -> (r: Vec<u8>)
        ensures
            r@ == data_bytes(self@),
    {
        let n: usize = self.len();
        let width: usize = match self.elem_type() {
            ElemType::F32 | ElemType::I32 => 4,
            ElemType::F64 | ElemType::I64 => 8,
            _ => 1,
        };
        let mut out: Vec<u8> = Vec::new();
        let mut i: usize = 0;
        let ghost keys = self@.bit_keys();
        while i < n
            invariant
                i <= n,
                n == self@.len(),
                keys == self@.bit_keys(),
                width == self@.elem_type().width(),
                out@ == keys_bytes(keys.take(i as int), width as nat),
            decreases n - i,
        {
            assert(keys.take(i + 1).drop_last() =~= keys.take(i as int));
            push_le(&mut out, self.bit_key(i), width);
            i += 1;
        }
        assert(keys.take(n as int) =~= keys);
        out
    }

    /// The elements that a run of little-endian bytes stands for. An incomplete element at the
    /// end is dropped, and any byte but zero stands for `true`.
    pub fn from_le_bytes(elem_type: ElemType, bytes: &[u8]) -> (r: Self)
        ensures
            r@ == data_of_bytes(elem_type, bytes@),
    {
        match elem_type {
            ElemType::F32 => {
                let mut v: Vec<u32> = Vec::new();
                let n: usize = bytes.len() / 4;
                let mut i: usize = 0;
                while i < n
                    invariant
                        i <= n == bytes.len() / 4,
                        v.len() == i,
                        forall|k: int| 0 <= k < i ==> #[trigger] v@[k] == group_value(bytes@, 4, k) as u32,
                    decreases n - i,
                {
                    let x: u64 = read_group(bytes, i, 4);
                    v.push(x as u32);
                    i += 1;
                }
                assert(v@ =~= data_of_bytes(elem_type, bytes@)->F32_0);
                TensorData::F32(v)
            },
            ElemType::F64 => {
                let mut v: Vec<u64> = Vec::new();
                let n: usize = bytes.len() / 8;
                let mut i: usize = 0;
                while i < n
                    invariant
                        i <= n == bytes.len() / 8,
                        v.len() == i,
                        forall|k: int| 0 <= k < i ==> #[trigger] v@[k] == group_value(bytes@, 8, k) as u64,
                    decreases n - i,
                {
                    v.push(read_group(bytes, i, 8));
                    i += 1;
                }
                assert(v@ =~= data_of_bytes(elem_type, bytes@)->F64_0);
                TensorData::F64(v)
            },
            ElemType::I32 => {
                let mut v: Vec<i32> = Vec::new();
                let n: usize = bytes.len() / 4;
                let mut i: usize = 0;
                while i < n
                    invariant
                        i <= n == bytes.len() / 4,
                        v.len() == i,
                        forall|k: int| 0 <= k < i ==> #[trigger] v@[k] == signed32(group_value(bytes@, 4, k)),
                    decreases n - i,
                {
                    v.push(to_signed32(read_group(bytes, i, 4)));
                    i += 1;
                }
                assert(v@ =~= data_of_bytes(elem_type, bytes@)->I32_0);
                TensorData::I32(v)
            },
            ElemType::I64 => {
                let mut v: Vec<i64> = Vec::new();
                let n: usize = bytes.len() / 8;
                let mut i: usize = 0;
                while i < n
                    invariant
                        i <= n == bytes.len() / 8,
                        v.len() == i,
                        forall|k: int| 0 <= k < i ==> #[trigger] v@[k] == signed64(group_value(bytes@, 8, k)),
                    decreases n - i,
                {
                    v.push(to_signed64(read_group(bytes, i, 8)));
                    i += 1;
                }
                assert(v@ =~= data_of_bytes(elem_type, bytes@)->I64_0);
                TensorData::I64(v)
            },
            ElemType::Bool => {
                let mut v: Vec<bool> = Vec::new();
                let mut i: usize = 0;
                while i < bytes.len()
                    invariant
                        i <= bytes.len(),
                        v.len() == i,
                        forall|k: int| 0 <= k < i ==> #[trigger] v@[k] == (bytes@[k] != 0),
                    decreases bytes.len() - i,
                {
                    v.push(bytes[i] != 0);
                    i += 1;
                }
                assert(v@ =~= data_of_bytes(elem_type, bytes@)->Bool_0);
                TensorData::Bool(v)
            },
            ElemType::I8 => {
                let mut v: Vec<i8> = Vec::new();
                let mut i: usize = 0;
                while i < bytes.len()
                    invariant
                        i <= bytes.len(),
                        v.len() == i,
                        forall|k: int| 0 <= k < i ==> #[trigger] v@[k] == signed8(bytes@[k] as nat),
                    decreases bytes.len() - i,
                {
                    v.push(to_signed8(bytes[i] as u64));
                    i += 1;
                }
                assert(v@ =~= data_of_bytes(elem_type, bytes@)->I8_0);
                TensorData::I8(v)
            },
            ElemType::U8 => {
                let mut v: Vec<u8> = Vec::new();
                let mut i: usize = 0;
                while i < bytes.len()
                    invariant
                        i <= bytes.len(),
                        v@ == bytes@.take(i as int),
                    decreases bytes.len() - i,
                {
                    v.push(bytes[i]);
                    assert(bytes@.take(i + 1) =~= bytes@.take(i as int).push(bytes@[i as int]));
                    i += 1;
                }
                assert(v@ =~= bytes@);
                TensorData::U8(v)
            },
        }
    }

    /// The bit patterns, when the elements are single-precision.
    pub fn as_f32(&self) -> (r: Option<&[u32]>)
        ensures
            r is Some <==> self@ is F32,
            r matches Some(v) ==> self@ == DataModel::F32(v@),
    {
        match self {
            TensorData::F32(v) => Some(v.as_slice()),
            _ => None,
        }
    }

    /// Whether there are elements and none of them is a finite number.
    pub fn is_entirely_undefined(&self) -> (r: bool)
        ensures
            r == self@.entirely_undefined(),
    {
        match self {
            TensorData::F32(v) => {
                let mut i: usize = 0;
                while i < v.len()
                    invariant
                        i <= v.len(),
                        self@ == DataModel::F32(v@),
                        forall|k: int| 0 <= k < i ==> !f32_is_finite(#[trigger] v@[k]),
                    decreases v.len() - i,
                {
                    if f32_abs(v[i]) < 0x7f80_0000 {
                        assert(f32_is_finite(v@[i as int]));
                        return false;
                    }
                    i += 1;
                }
                v.len() > 0
            },
            TensorData::F64(v) => {
                let mut i: usize = 0;
                while i < v.len()
                    invariant
                        i <= v.len(),
                        self@ == DataModel::F64(v@),
                        forall|k: int| 0 <= k < i ==> !f64_is_finite(#[trigger] v@[k]),
                    decreases v.len() - i,
                {
                    if f64_abs(v[i]) < 0x7ff0_0000_0000_0000 {
                        assert(f64_is_finite(v@[i as int]));
                        return false;
                    }
                    i += 1;
                }
                v.len() > 0
            },
            _ => false,
        }
    }

    /// Whether two tensors hold the same elements, bit for bit.
    pub fn same(&self, other: &TensorData) -> (r: bool)
        ensures
            r == (self@ == other@),
    {
        match (self, other) {
            (TensorData::F32(a), TensorData::F32(b)) => {
                let r: bool = *a == *b;
                assert(r ==> a@ =~= b@);
                r
            },
            (TensorData::F64(a), TensorData::F64(b)) => {
                let r: bool = *a == *b;
                assert(r ==> a@ =~= b@);
                r
            },
            (TensorData::I32(a), TensorData::I32(b)) => {
                let r: bool = *a == *b;
                assert(r ==> a@ =~= b@);
                r
            },
            (TensorData::I64(a), TensorData::I64(b)) => {
                let r: bool = *a == *b;
                assert(r ==> a@ =~= b@);
                r
            },
            (TensorData::Bool(a), TensorData::Bool(b)) => {
                let r: bool = *a == *b;
                assert(r ==> a@ =~= b@);
                r
            },
            (TensorData::I8(a), TensorData::I8(b)) => {
                let r: bool = *a == *b;
                assert(r ==> a@ =~= b@);
                r
            },
            (TensorData::U8(a), TensorData::U8(b)) => {
                let r: bool = *a == *b;
                assert(r ==> a@ =~= b@);
                r
            },
            _ => false,
        }
    }
}

fn read_group(bytes: &[u8], i: usize, width: usize) -> (r: u64)
    requires
        width == 4 || width == 8,
        i < bytes.len() / width,
    ensures
        r == group_value(bytes@, width as nat, i as int),
        width == 4 ==> r < 0x1_0000_0000,
{
    assert(i * width + width <= bytes.len()) by (nonlinear_arith)
        requires
            i < bytes.len() / width,
            width > 0,
    ;
    proof {
        lemma_le_value_bound(bytes@.subrange(i * width, i * width + width));
        lemma_pow256();
    }
    read_le(bytes, i * width, width)
}

// ---- shapes ----

/// The product of a list of extents. The product of none is one.
pub open spec fn product(dims: Seq<i64>) -> int
    decreases dims.len(),
{
    if dims.len() == 0 {
        1
    } else {
        product(dims.drop_last()) * dims.last()
    }
}

/// Whether the product can be taken from left to right without leaving the range of `i64`.
pub open spec fn product_fits(dims: Seq<i64>) -> bool {
    forall|k: int|
        0 <= k <= dims.len() ==> i64::MIN <= product(#[trigger] dims.take(k)) <= i64::MAX
}

/// Whether some extent is negative.
pub open spec fn any_negative(dims: Seq<i64>) -> bool {
    exists|i: int| 0 <= i < dims.len() && #[trigger] dims[i] < 0
}

/// How many elements a shape holds. A negative extent makes the shape meaningless, and it then
/// holds none.
pub open spec fn count_of(dims: Seq<i64>) -> int {
    if any_negative(dims) {
        0
    } else {
        product(dims)
    }
}

/// Whether a shape's elements can be counted on this machine.
pub open spec fn count_fits(dims: Seq<i64>) -> bool {
    any_negative(dims) || (product_fits(dims) && product(dims) <= usize::MAX)
}

pub proof fn lemma_product_nonnegative(dims: Seq<i64>)
    requires
        !any_negative(dims),
    ensures
        product(dims) >= 0,
    decreases dims.len(),
{
    if dims.len() > 0 {
        assert(dims.last() >= 0);
        assert forall|i: int| 0 <= i < dims.drop_last().len() implies #[trigger] dims.drop_last()[i]
            >= 0 by {
            assert(dims[i] >= 0);
        }
        lemma_product_nonnegative(dims.drop_last());
        assert(product(dims.drop_last()) * dims.last() >= 0) by (nonlinear_arith)
            requires
                product(dims.drop_last()) >= 0,
                dims.last() >= 0,
        ;
    }
}

/// The product of a list of extents.
pub fn product_of(dims: &Vec<i64>) -> (r: i64)
    requires
        product_fits(dims@),
    ensures
        r == product(dims@),
{
    let mut acc: i64 = 1;
    let mut i: usize = 0;
    while i < dims.len()
        invariant
            i <= dims.len(),
            product_fits(dims@),
            acc == product(dims@.take(i as int)),
        decreases dims.len() - i,
    {
        assert(dims@.take(i + 1).drop_last() =~= dims@.take(i as int));
        assert(product(dims@.take(i + 1)) == acc * dims@[i as int]);
        acc = acc * dims[i];
        i += 1;
    }
    assert(dims@.take(dims@.len() as int) =~= dims@);
    acc
}

/// Whether some extent is negative.
pub fn has_negative(dims: &Vec<i64>) -> (r: bool)
    ensures
        r == any_negative(dims@),
{
    let mut i: usize = 0;
    while i < dims.len()
        invariant
            i <= dims.len(),
            forall|k: int| 0 <= k < i ==> #[trigger] dims@[k] >= 0,
        decreases dims.len() - i,
    {
        if dims[i] < 0 {
            return true;
        }
        i += 1;
    }
    false
}

// ---- tensors ----

/// Whether an input is fed at run time or is a constant inside the model.
#[derive(Debug, Clone, Copy, PartialEq, Eq, Structural)]
pub enum InputRole {
    Data,
    Initializer,
}

impl Default for InputRole {
    fn default() -> (r: Self)
        ensures
            r == InputRole::Data,
    {
        InputRole::Data
    }
}

/// A named tensor.
#[derive(Debug, PartialEq, Eq)]
pub struct TensorValue {
    pub name: String,
    pub dims: Vec<i64>,
    pub data: TensorData,
    pub role: InputRole,
}

/// What a [`TensorValue`] holds.
#[verifier::ext_equal]
pub struct TensorModel {
    pub name: Seq<char>,
    pub dims: Seq<i64>,
    pub data: DataModel,
    pub role: InputRole,
}

impl View for TensorValue {
    type V = TensorModel;

    open spec fn view(&self) -> TensorModel {
        TensorModel { name: self.name@, dims: self.dims@, data: self.data@, role: self.role }
    }
}

impl TensorModel {
    pub open spec fn elem_type(self) -> ElemType {
        self.data.elem_type()
    }

    pub open spec fn initializer(self) -> bool {
        self.role == InputRole::Initializer
    }
}

impl Clone for TensorValue {
    fn clone(&self) -> (r: Self)
        ensures
            r@ == self@,
    {
        let dims: Vec<i64> = self.dims.clone();
        assert(dims@ =~= self.dims@);
        TensorValue { name: self.name.clone(), dims, data: self.data.clone(), role: self.role }
    }
}

impl TensorValue {
    pub fn new(name: &str, dims: Vec<i64>, data: TensorData) -> (r: Self)
        ensures
            r@ == (TensorModel {
                name: name@,
                dims: dims@,
                data: data@,
                role: InputRole::Data,
            }),
    {
        TensorValue { name: name.to_owned(), dims, data, role: InputRole::Data }
    }

    /// The same tensor as a constant inside the model.
    #[must_use]
    pub fn as_initializer(self) -> (r: Self)
        ensures
            r@ == (TensorModel { role: InputRole::Initializer, ..self@ }),
    {
        TensorValue {
            name: self.name,
            dims: self.dims,
            data: self.data,
            role: InputRole::Initializer,
        }
    }

    pub fn is_initializer(&self) -> (r: bool)
        ensures
            r == self@.initializer(),
    {
        self.role == InputRole::Initializer
    }

    /// A single-precision tensor, given by its bit patterns.
    pub fn from_f32(name: &str, dims: Vec<i64>, values: Vec<u32>) -> (r: Self)
        ensures
            r@ == (TensorModel {
                name: name@,
                dims: dims@,
                data: DataModel::F32(values@),
                role: InputRole::Data,
            }),
    {
        TensorValue::new(name, dims, TensorData::F32(values))
    }

    pub fn elem_type(&self) -> (r: ElemType)
        ensures
            r == self@.elem_type(),
    {
        self.data.elem_type()
    }

    /// How many elements the shape calls for. This is a statement about the shape and not about
    /// what is stored; a negative extent counts as an empty shape.
    pub fn element_count(&self) -> (r: usize)
        requires
            count_fits(self@.dims),
        ensures
            r == count_of(self@.dims),
    {
        if has_negative(&self.dims) {
            return 0;
        }
        proof {
            lemma_product_nonnegative(self.dims@);
        }
        product_of(&self.dims) as usize
    }

    pub fn rank(&self) -> (r: usize)
        ensures
            r == self@.dims.len(),
    {
        self.dims.len()
    }

    /// The bit patterns, when the elements are single-precision.
    pub fn as_f32(&self) -> (r: Option<&[u32]>)
        ensures
            r is Some <==> self@.data is F32,
            r matches Some(v) ==> self@.data == DataModel::F32(v@),
    {
        self.data.as_f32()
    }

    /// Whether two tensors are the same in every respect, bit for bit.
    pub fn same(&self, other: &TensorValue) -> (r: bool)
        ensures
            r == (self@ == other@),
    {
        let dims: bool = self.dims == other.dims;
        assert(dims ==> self.dims@ =~= other.dims@);
        dims && self.role == other.role && same_text(self.name.as_str(), other.name.as_str())
            && self.data.same(&other.data)
    }
}

/// The models of a sequence of tensors.
pub open spec fn tensors_model(v: Seq<TensorValue>) -> Seq<TensorModel> {
    Seq::new(v.len(), |i: int| v[i]@)
}

/// A copy of a list of tensors.
pub fn clone_tensors(v: &Vec<TensorValue>) -> (r: Vec<TensorValue>)
    ensures
        tensors_model(r@) == tensors_model(v@),
{
    let mut out: Vec<TensorValue> = Vec::new();
    let mut i: usize = 0;
    while i < v.len()
        invariant
            i <= v.len(),
            out.len() == i,
            forall|k: int| 0 <= k < i ==> (#[trigger] out@[k])@ == v@[k]@,
        decreases v.len() - i,
    {
        out.push(v[i].clone());
        i += 1;
    }
    assert(tensors_model(out@) =~= tensors_model(v@));
    out
}

// ---- operators ----

/// The operators a case can hold.
#[derive(Debug, Clone, Copy, PartialEq, Eq, Hash, Structural)]
pub enum OpKind {
    Identity,
    Reshape,
    Transpose,
    Concat,
    Squeeze,
    Unsqueeze,
    Shape,
    Size,
    Slice,
    Pad,
    Gather,
    Where,
    Cast,
    Equal,
    Greater,
    Less,
    And,
    Or,
    Xor,
    Not,
    Add,
    Sub,
    Mul,
    Div,
    Min,
    Max,
    Abs,
    Neg,
    Sign,
    Sqrt,
    Floor,
    Ceil,
    Round,
    QuantizeLinear,
    DequantizeLinear,
    MatMulInteger,
    DynamicQuantizeLinear,
}

impl OpKind {
    /// Every operator.
    pub const ALL: [OpKind; 37] = [
        OpKind::Identity,
        OpKind::Reshape,
        OpKind::Transpose,
        OpKind::Concat,
        OpKind::Squeeze,
        OpKind::Unsqueeze,
        OpKind::Shape,
        OpKind::Size,
        OpKind::Slice,
        OpKind::Pad,
        OpKind::Gather,
        OpKind::Where,
        OpKind::Cast,
        OpKind::Equal,
        OpKind::Greater,
        OpKind::Less,
        OpKind::And,
        OpKind::Or,
        OpKind::Xor,
        OpKind::Not,
        OpKind::Add,
        OpKind::Sub,
        OpKind::Mul,
        OpKind::Div,
        OpKind::Min,
        OpKind::Max,
        OpKind::Abs,
        OpKind::Neg,
        OpKind::Sign,
        OpKind::Sqrt,
        OpKind::Floor,
        OpKind::Ceil,
        OpKind::Round,
        OpKind::QuantizeLinear,
        OpKind::DequantizeLinear,
        OpKind::MatMulInteger,
        OpKind::DynamicQuantizeLinear,
    ];

    /// Operators that work element by element on tensors of one shape.
    pub const ELEMENTWISE: [OpKind; 4] = [OpKind::Add, OpKind::Sub, OpKind::Mul, OpKind::Identity];

    /// The operator's name in ONNX.
    pub open spec fn text(self) -> Seq<char> {
        match self {
            OpKind::Identity => "Identity"@,
            OpKind::Reshape => "Reshape"@,
            OpKind::Transpose => "Transpose"@,
            OpKind::Concat => "Concat"@,
            OpKind::Squeeze => "Squeeze"@,
            OpKind::Unsqueeze => "Unsqueeze"@,
            OpKind::Shape => "Shape"@,
            OpKind::Size => "Size"@,
            OpKind::Slice => "Slice"@,
            OpKind::Pad => "Pad"@,
            OpKind::Gather => "Gather"@,
            OpKind::Where => "Where"@,
            OpKind::Cast => "Cast"@,
            OpKind::Equal => "Equal"@,
            OpKind::Greater => "Greater"@,
            OpKind::Less => "Less"@,
            OpKind::And => "And"@,
            OpKind::Or => "Or"@,
            OpKind::Xor => "Xor"@,
            OpKind::Not => "Not"@,
            OpKind::Add => "Add"@,
            OpKind::Sub => "Sub"@,
            OpKind::Mul => "Mul"@,
            OpKind::Div => "Div"@,
            OpKind::Min => "Min"@,
            OpKind::Max => "Max"@,
            OpKind::Abs => "Abs"@,
            OpKind::Neg => "Neg"@,
            OpKind::Sign => "Sign"@,
            OpKind::Sqrt => "Sqrt"@,
            OpKind::Floor => "Floor"@,
            OpKind::Ceil => "Ceil"@,
            OpKind::Round => "Round"@,
            OpKind::QuantizeLinear => "QuantizeLinear"@,
            OpKind::DequantizeLinear => "DequantizeLinear"@,
            OpKind::MatMulInteger => "MatMulInteger"@,
            OpKind::DynamicQuantizeLinear => "DynamicQuantizeLinear"@,
        }
    }

    /// The operator's name in ONNX.
    pub fn onnx_name(self) -> (r: &'static str)
        ensures
            r@ == self.text(),
    {
        match self {
            OpKind::Identity => "Identity",
            OpKind::Reshape => "Reshape",
            OpKind::Transpose => "Transpose",
            OpKind::Concat => "Concat",
            OpKind::Squeeze => "Squeeze",
            OpKind::Unsqueeze => "Unsqueeze",
            OpKind::Shape => "Shape",
            OpKind::Size => "Size",
            OpKind::Slice => "Slice",
            OpKind::Pad => "Pad",
            OpKind::Gather => "Gather",
            OpKind::Where => "Where",
            OpKind::Cast => "Cast",
            OpKind::Equal => "Equal",
            OpKind::Greater => "Greater",
            OpKind::Less => "Less",
            OpKind::And => "And",
            OpKind::Or => "Or",
            OpKind::Xor => "Xor",
            OpKind::Not => "Not",
            OpKind::Add => "Add",
            OpKind::Sub => "Sub",
            OpKind::Mul => "Mul",
            OpKind::Div => "Div",
            OpKind::Min => "Min",
            OpKind::Max => "Max",
            OpKind::Abs => "Abs",
            OpKind::Neg => "Neg",
            OpKind::Sign => "Sign",
            OpKind::Sqrt => "Sqrt",
            OpKind::Floor => "Floor",
            OpKind::Ceil => "Ceil",
            OpKind::Round => "Round",
            OpKind::QuantizeLinear => "QuantizeLinear",
            OpKind::DequantizeLinear => "DequantizeLinear",
            OpKind::MatMulInteger => "MatMulInteger",
            OpKind::DynamicQuantizeLinear => "DynamicQuantizeLinear",
        }
    }
}

// ---- cases ----

/// One operator at one opset version, with its inputs and attributes.
#[derive(Debug, PartialEq, Eq)]
pub struct OnnxCase {
    pub opset: i64,
    pub op: OpKind,
    pub inputs: Vec<TensorValue>,
    pub attrs: Attrs,
}

/// What an [`OnnxCase`] holds.
#[verifier::ext_equal]
pub struct CaseModel {
    pub opset: i64,
    pub op: OpKind,
    pub inputs: Seq<TensorModel>,
    pub attrs: Seq<(Seq<char>, AttrModel)>,
}

impl View for OnnxCase {
    type V = CaseModel;

    open spec fn view(&self) -> CaseModel {
        CaseModel {
            opset: self.opset,
            op: self.op,
            inputs: tensors_model(self.inputs@),
            attrs: self.attrs@,
        }
    }
}

/// How many elements a sequence of shapes calls for together.
pub open spec fn total_count(inputs: Seq<TensorModel>) -> int
    decreases inputs.len(),
{
    if inputs.len() == 0 {
        0
    } else {
        total_count(inputs.drop_last()) + count_of(inputs.last().dims)
    }
}

impl Clone for OnnxCase {
    fn clone(&self) -> (r: Self)
        ensures
            r@ == self@,
    {
        OnnxCase {
            opset: self.opset,
            op: self.op,
            inputs: clone_tensors(&self.inputs),
            attrs: self.attrs.clone(),
        }
    }
}

impl OnnxCase {
    /// The name of a model's first output.
    pub const OUTPUT_NAME: &'static str = "out";

    /// A case without attributes.
    pub fn new(op: OpKind, opset: i64, inputs: Vec<TensorValue>) -> (r: Self)
        ensures
            r@ == (CaseModel {
                opset,
                op,
                inputs: tensors_model(inputs@),
                attrs: Seq::empty(),
            }),
    {
        OnnxCase { opset, op, inputs, attrs: Attrs::new() }
    }

    /// The same case with other attributes.
    #[must_use]
    pub fn with_attrs(self, attrs: Attrs) -> (r: Self)
        ensures
            r@ == (CaseModel { attrs: attrs@, ..self@ }),
    {
        OnnxCase { opset: self.opset, op: self.op, inputs: self.inputs, attrs }
    }

    /// The inputs with a given role, in order.
    fn inputs_with(&self, initializer: bool) -> (r: Vec<&TensorValue>)
        ensures
            Seq::new(r@.len(), |i: int| r@[i]@) == self@.inputs.filter(
                |t: TensorModel| t.initializer() == initializer,
            ),
    {
        let ghost keep = |t: TensorModel| t.initializer() == initializer;
        let mut out: Vec<&TensorValue> = Vec::new();
        let mut i: usize = 0;
        proof {
            reveal(Seq::filter);
        }
        assert(self@.inputs.take(0) =~= Seq::empty());
        assert(Seq::new(out@.len(), |i: int| out@[i]@) =~= Seq::empty());
        while i < self.inputs.len()
            invariant
                i <= self.inputs.len(),
                keep == (|t: TensorModel| t.initializer() == initializer),
                Seq::new(out@.len(), |i: int| out@[i]@) == self@.inputs.take(i as int).filter(keep),
            decreases self.inputs.len() - i,
        {
            let ghost before = Seq::new(out@.len(), |i: int| out@[i]@);
            let t: &TensorValue = &self.inputs[i];
            proof {
                reveal(Seq::filter);
                assert(self@.inputs.take(i + 1).drop_last() =~= self@.inputs.take(i as int));
            }
            if t.is_initializer() == initializer {
                out.push(t);
                assert(Seq::new(out@.len(), |i: int| out@[i]@) =~= before.push(t@));
            }
            i += 1;
        }
        assert(self@.inputs.take(self@.inputs.len() as int) =~= self@.inputs);
        out
    }

    /// The inputs that are supplied when the model runs, in order.
    pub fn fed_inputs(&self) -> (r: Vec<&TensorValue>)
        ensures
            Seq::new(r@.len(), |i: int| r@[i]@) == self@.inputs.filter(
                |t: TensorModel| t.initializer() == false,
            ),
    {
        self.inputs_with(false)
    }

    /// The inputs that are constants inside the model, in order.
    pub fn initializers(&self) -> (r: Vec<&TensorValue>)
        ensures
            Seq::new(r@.len(), |i: int| r@[i]@) == self@.inputs.filter(
                |t: TensorModel| t.initializer() == true,
            ),
    {
        self.inputs_with(true)
    }

    /// How many elements the inputs' shapes call for together.
    pub fn total_elements(&self) -> (r: usize)
        requires
            forall|i: int| 0 <= i < self@.inputs.len() ==> count_fits((#[trigger] self@.inputs[i]).dims),
            total_count(self@.inputs) <= usize::MAX,
        ensures
            r == total_count(self@.inputs),
    {
        let mut total: usize = 0;
        let mut i: usize = 0;
        while i < self.inputs.len()
            invariant
                i <= self.inputs.len(),
                forall|i: int|
                    0 <= i < self@.inputs.len() ==> count_fits((#[trigger] self@.inputs[i]).dims),
                total_count(self@.inputs) <= usize::MAX,
                total == total_count(self@.inputs.take(i as int)),
            decreases self.inputs.len() - i,
        {
            proof {
                assert(self@.inputs.take(i + 1).drop_last() =~= self@.inputs.take(i as int));
                lemma_total_count_grows(self@.inputs, i + 1);
                assert(count_fits(self@.inputs[i as int].dims));
            }
            total = total + self.inputs[i].element_count();
            i += 1;
        }
        assert(self@.inputs.take(self@.inputs.len() as int) =~= self@.inputs);
        total
    }

    /// Whether two cases are the same in every respect, bit for bit.
    pub fn same(&self, other: &OnnxCase) -> (r: bool)
        ensures
            r == (self@ == other@),
    {
        if self.opset != other.opset || self.op != other.op || self.inputs.len()
            != other.inputs.len() || !self.attrs.same(&other.attrs) {
            assert(self.inputs.len() != other.inputs.len() ==> self@.inputs.len()
                != other@.inputs.len());
            return false;
        }
        let mut i: usize = 0;
        while i < self.inputs.len()
            invariant
                i <= self.inputs.len(),
                self.inputs.len() == other.inputs.len(),
                forall|k: int| 0 <= k < i ==> self@.inputs[k] == other@.inputs[k],
            decreases self.inputs.len() - i,
        {
            if !self.inputs[i].same(&other.inputs[i]) {
                assert(self@.inputs[i as int] != other@.inputs[i as int]);
                return false;
            }
            i += 1;
        }
        assert(self@.inputs =~= other@.inputs);
        true
    }
}

proof fn lemma_total_count_grows(inputs: Seq<TensorModel>, k: int)
    requires
        0 <= k <= inputs.len(),
    ensures
        0 <= total_count(inputs.take(k)) <= total_count(inputs),
    decreases inputs.len(),
{
    lemma_total_count_nonnegative(inputs.take(k));
    if k < inputs.len() {
        assert(inputs.drop_last().take(k) =~= inputs.take(k));
        lemma_total_count_grows(inputs.drop_last(), k);
        if !any_negative(inputs.last().dims) {
            lemma_product_nonnegative(inputs.last().dims);
        }
    } else {
        assert(inputs.take(k) =~= inputs);
    }
}

proof fn lemma_total_count_nonnegative(inputs: Seq<TensorModel>)
    ensures
        total_count(inputs) >= 0,
    decreases inputs.len(),
{
    if inputs.len() > 0 {
        lemma_total_count_nonnegative(inputs.drop_last());
        if !any_negative(inputs.last().dims) {
            lemma_product_nonnegative(inputs.last().dims);
        }
    }
}

/// What tells the operators' names apart: the length and the first three characters.
spec fn name_key(op: OpKind) -> (nat, char, char, char) {
    match op {
        OpKind::Identity => (8, 'I', 'd', 'e'),
        OpKind::Reshape => (7, 'R', 'e', 's'),
        OpKind::Transpose => (9, 'T', 'r', 'a'),
        OpKind::Concat => (6, 'C', 'o', 'n'),
        OpKind::Squeeze => (7, 'S', 'q', 'u'),
        OpKind::Unsqueeze => (9, 'U', 'n', 's'),
        OpKind::Shape => (5, 'S', 'h', 'a'),
        OpKind::Size => (4, 'S', 'i', 'z'),
        OpKind::Slice => (5, 'S', 'l', 'i'),
        OpKind::Pad => (3, 'P', 'a', 'd'),
        OpKind::Gather => (6, 'G', 'a', 't'),
        OpKind::Where => (5, 'W', 'h', 'e'),
        OpKind::Cast => (4, 'C', 'a', 's'),
        OpKind::Equal => (5, 'E', 'q', 'u'),
        OpKind::Greater => (7, 'G', 'r', 'e'),
        OpKind::Less => (4, 'L', 'e', 's'),
        OpKind::And => (3, 'A', 'n', 'd'),
        OpKind::Or => (2, 'O', 'r', ' '),
        OpKind::Xor => (3, 'X', 'o', 'r'),
        OpKind::Not => (3, 'N', 'o', 't'),
        OpKind::Add => (3, 'A', 'd', 'd'),
        OpKind::Sub => (3, 'S', 'u', 'b'),
        OpKind::Mul => (3, 'M', 'u', 'l'),
        OpKind::Div => (3, 'D', 'i', 'v'),
        OpKind::Min => (3, 'M', 'i', 'n'),
        OpKind::Max => (3, 'M', 'a', 'x'),
        OpKind::Abs => (3, 'A', 'b', 's'),
        OpKind::Neg => (3, 'N', 'e', 'g'),
        OpKind::Sign => (4, 'S', 'i', 'g'),
        OpKind::Sqrt => (4, 'S', 'q', 'r'),
        OpKind::Floor => (5, 'F', 'l', 'o'),
        OpKind::Ceil => (4, 'C', 'e', 'i'),
        OpKind::Round => (5, 'R', 'o', 'u'),
        OpKind::QuantizeLinear => (14, 'Q', 'u', 'a'),
        OpKind::DequantizeLinear => (16, 'D', 'e', 'q'),
        OpKind::MatMulInteger => (13, 'M', 'a', 't'),
        OpKind::DynamicQuantizeLinear => (21, 'D', 'y', 'n'),
    }
}

proof fn lemma_name_key(op: OpKind)
    ensures
        op.text().len() == name_key(op).0,
        op.text()[0] == name_key(op).1,
        op.text()[1] == name_key(op).2,
        op.text().len() > 2 ==> op.text()[2] == name_key(op).3,
{
    reveal_strlit("Identity");
    reveal_strlit("Reshape");
    reveal_strlit("Transpose");
    reveal_strlit("Concat");
    reveal_strlit("Squeeze");
    reveal_strlit("Unsqueeze");
    reveal_strlit("Shape");
    reveal_strlit("Size");
    reveal_strlit("Slice");
    reveal_strlit("Pad");
    reveal_strlit("Gather");
    reveal_strlit("Where");
    reveal_strlit("Cast");
    reveal_strlit("Equal");
    reveal_strlit("Greater");
    reveal_strlit("Less");
    reveal_strlit("And");
    reveal_strlit("Or");
    reveal_strlit("Xor");
    reveal_strlit("Not");
    reveal_strlit("Add");
    reveal_strlit("Sub");
    reveal_strlit("Mul");
    reveal_strlit("Div");
    reveal_strlit("Min");
    reveal_strlit("Max");
    reveal_strlit("Abs");
    reveal_strlit("Neg");
    reveal_strlit("Sign");
    reveal_strlit("Sqrt");
    reveal_strlit("Floor");
    reveal_strlit("Ceil");
    reveal_strlit("Round");
    reveal_strlit("QuantizeLinear");
    reveal_strlit("DequantizeLinear");
    reveal_strlit("MatMulInteger");
    reveal_strlit("DynamicQuantizeLinear");
}

/// An operator's name identifies it, so a record that holds the name has lost nothing.
pub proof fn lemma_names_identify_operators(a: OpKind, b: OpKind)
    requires
        a.text() == b.text(),
    ensures
        a == b,
{
    lemma_name_key(a);
    lemma_name_key(b);
}

/// Every operator is listed.
pub proof fn lemma_every_operator_is_listed(op: OpKind)
    ensures
        exists|k: int| 0 <= k < 37 && #[trigger] OpKind::ALL[k] == op,
{
    assert(OpKind::ALL[0] == OpKind::Identity);
    assert(OpKind::ALL[1] == OpKind::Reshape);
    assert(OpKind::ALL[2] == OpKind::Transpose);
    assert(OpKind::ALL[3] == OpKind::Concat);
    assert(OpKind::ALL[4] == OpKind::Squeeze);
    assert(OpKind::ALL[5] == OpKind::Unsqueeze);
    assert(OpKind::ALL[6] == OpKind::Shape);
    assert(OpKind::ALL[7] == OpKind::Size);
    assert(OpKind::ALL[8] == OpKind::Slice);
    assert(OpKind::ALL[9] == OpKind::Pad);
    assert(OpKind::ALL[10] == OpKind::Gather);
    assert(OpKind::ALL[11] == OpKind::Where);
    assert(OpKind::ALL[12] == OpKind::Cast);
    assert(OpKind::ALL[13] == OpKind::Equal);
    assert(OpKind::ALL[14] == OpKind::Greater);
    assert(OpKind::ALL[15] == OpKind::Less);
    assert(OpKind::ALL[16] == OpKind::And);
    assert(OpKind::ALL[17] == OpKind::Or);
    assert(OpKind::ALL[18] == OpKind::Xor);
    assert(OpKind::ALL[19] == OpKind::Not);
    assert(OpKind::ALL[20] == OpKind::Add);
    assert(OpKind::ALL[21] == OpKind::Sub);
    assert(OpKind::ALL[22] == OpKind::Mul);
    assert(OpKind::ALL[23] == OpKind::Div);
    assert(OpKind::ALL[24] == OpKind::Min);
    assert(OpKind::ALL[25] == OpKind::Max);
    assert(OpKind::ALL[26] == OpKind::Abs);
    assert(OpKind::ALL[27] == OpKind::Neg);
    assert(OpKind::ALL[28] == OpKind::Sign);
    assert(OpKind::ALL[29] == OpKind::Sqrt);
    assert(OpKind::ALL[30] == OpKind::Floor);
    assert(OpKind::ALL[31] == OpKind::Ceil);
    assert(OpKind::ALL[32] == OpKind::Round);
    assert(OpKind::ALL[33] == OpKind::QuantizeLinear);
    assert(OpKind::ALL[34] == OpKind::DequantizeLinear);
    assert(OpKind::ALL[35] == OpKind::MatMulInteger);
    assert(OpKind::ALL[36] == OpKind::DynamicQuantizeLinear);
}

} // verus!
