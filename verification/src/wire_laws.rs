//! How values are laid out in bytes, byte by byte, and where each part of a model stands.

use vstd::prelude::*;
use vstd::utf8::{encode_utf8, encode_utf8_decode_utf8, encode_utf8_valid_utf8};

use crate::attrs::AttrModel;
use crate::bits::{le_bytes, lemma_le_bytes_len};
use crate::case::{data_bytes, data_of_bytes, lemma_keys_bytes_group, lemma_keys_bytes_len};
use crate::case::{CaseModel, DataModel, ElemType, InputRole, OpKind, TensorModel};
use crate::metamorphic_laws::{bits_in, kind_of};
use crate::model::{attribute_of, constant_of, model_of};
use crate::model::{GraphModel, ModelModel, NodeModel, ValueInfoModel};
use crate::ops::{output_dims, output_elem};
use crate::outcome::OutcomeModel;
use crate::reference::{extents, framed, lemma_framed_back, read_reply, request, tensor_frame};
use crate::reference::{tensor_frames, Read};
use crate::shape_laws::standard_number;
use crate::wire::{lemma_message_concat, lemma_message_one, message, varint_bytes, Field};

verus! {

// ---- numbers ----

/// A number after some divisions by a base.
pub open spec fn divided(n: int, base: int, times: nat) -> int
    decreases times,
{
    if times == 0 {
        n
    } else {
        divided(n / base, base, (times - 1) as nat)
    }
}

/// A number is laid out low byte first: the byte at a place is what is left of the number after as
/// many divisions by 256, without the higher bytes.
pub proof fn lemma_low_bytes_come_first(n: nat, width: nat, i: int)
    requires
        0 <= i < width,
    ensures
        le_bytes(n, width).len() == width,
        le_bytes(n, width)[i] == divided(n as int, 256, i as nat) % 256,
    decreases width,
{
    lemma_le_bytes_len(n, width);
    if i > 0 {
        lemma_low_bytes_come_first(n / 256, (width - 1) as nat, i - 1);
    }
}

/// A number in groups of seven bits: the group at a place is what is left of the number after as
/// many divisions by 128, every group but the last is marked, and the last is not empty.
pub proof fn lemma_groups_of_seven_bits(n: nat, i: int)
    requires
        0 <= i < varint_bytes(n).len(),
    ensures
        varint_bytes(n)[i] as int % 128 == divided(n as int, 128, i as nat) % 128,
        (varint_bytes(n)[i] >= 128) == (i < varint_bytes(n).len() - 1),
        i == varint_bytes(n).len() - 1 && i > 0 ==> varint_bytes(n)[i] > 0,
    decreases n,
{
    if n >= 128 {
        let rest = varint_bytes(n / 128);
        lemma_some_group(n / 128);
        if i > 0 {
            lemma_groups_of_seven_bits(n / 128, i - 1);
            assert(varint_bytes(n)[i] == rest[i - 1]);
            if i == 1 && rest.len() == 1 {
                assert(n / 128 < 128);
            }
        } else {
            assert((128 + n % 128) % 128 == n % 128);
        }
    }
}

proof fn lemma_some_group(n: nat)
    ensures
        varint_bytes(n).len() >= 1,
        varint_bytes(n).len() == 1 <==> n < 128,
    decreases n,
{
    if n >= 128 {
        lemma_some_group(n / 128);
    }
}

// ---- elements ----

/// The pattern of an element as a number: as it stands, with negative integers in two's
/// complement, and truth values as one and zero.
pub open spec fn pattern(d: DataModel, i: int) -> int {
    match d {
        DataModel::F32(v) => v[i] as int,
        DataModel::F64(v) => v[i] as int,
        DataModel::I32(v) => v[i] as int % 0x1_0000_0000,
        DataModel::I64(v) => v[i] as int % 0x1_0000_0000_0000_0000,
        DataModel::Bool(v) => if v[i] {
            1
        } else {
            0
        },
        DataModel::I8(v) => v[i] as int % 0x100,
        DataModel::U8(v) => v[i] as int,
    }
}

/// The key of an element is its pattern.
pub proof fn lemma_a_key_is_a_pattern(d: DataModel, i: int)
    requires
        0 <= i < d.len(),
    ensures
        d.bits(i) == pattern(d, i),
{
    match d {
        DataModel::I32(v) => {
            assert(-0x8000_0000 <= v[i] <= 0x7fff_ffff);
        },
        DataModel::I64(v) => {
            assert(-0x8000_0000_0000_0000 <= v[i] <= 0x7fff_ffff_ffff_ffff);
        },
        DataModel::I8(v) => {
            assert(-0x80 <= v[i] <= 0x7f);
        },
        _ => {},
    }
}

/// The elements of a tensor follow each other, each in as many bytes as its type takes, low byte
/// first.
pub proof fn lemma_elements_are_laid_out_in_order(d: DataModel, i: int, j: int)
    requires
        0 <= i < d.len(),
        0 <= j < bits_in(kind_of(d)) / 8,
    ensures
        data_bytes(d).len() == d.len() * (bits_in(kind_of(d)) / 8),
        0 <= i * (bits_in(kind_of(d)) / 8) + j < data_bytes(d).len(),
        data_bytes(d)[i * (bits_in(kind_of(d)) / 8) + j] == divided(pattern(d, i), 256, j as nat)
            % 256,
{
    let keys = d.bit_keys();
    let width = d.elem_type().width();
    assert(width == bits_in(kind_of(d)) / 8);
    lemma_keys_bytes_len(keys, width);
    lemma_keys_bytes_group(keys, width, i);
    lemma_a_key_is_a_pattern(d, i);
    lemma_low_bytes_come_first(keys[i] as nat, width, j);
    let all = data_bytes(d);
    assert(all.subrange(i * width, i * width + width)[j] == all[i * width + j]);
}

/// What is read from bytes is as many whole elements as they hold, and a byte that is not zero is
/// true.
pub proof fn lemma_bytes_are_read_as_whole_elements(elem: ElemType, bytes: Seq<u8>)
    ensures
        kind_of(data_of_bytes(elem, bytes)) == elem,
        data_of_bytes(elem, bytes).len() == bytes.len() as int / (bits_in(elem) / 8),
        elem == ElemType::Bool ==> forall|i: int|
            0 <= i < bytes.len() ==> #[trigger] data_of_bytes(elem, bytes)->Bool_0[i] == (bytes[i]
                != 0),
{
}

// ---- fields ----

/// How fields are written: a key of the number and the kind of the value, then the value. Numbers
/// are of kind 0, four bytes of kind 5, and bytes, behind their length, of kind 2.
pub proof fn lemma_fields_have_keys(tag: nat, value: nat, bits: u32, bytes: Seq<u8>)
    ensures
        (Field::Number { tag, value }).encoded() == varint_bytes(8 * tag) + varint_bytes(value),
        (Field::Word { tag, bits }).encoded() == varint_bytes(8 * tag + 5) + le_bytes(bits as nat, 4),
        (Field::Bytes { tag, bytes }).encoded() == varint_bytes(8 * tag + 2) + (varint_bytes(
            bytes.len(),
        ) + bytes),
{
}

/// A text field.
pub open spec fn text_at(tag: nat, text: Seq<char>) -> Seq<u8> {
    varint_bytes(8 * tag + 2) + (varint_bytes(encode_utf8(text).len()) + encode_utf8(text))
}

/// A field of bytes.
pub open spec fn bytes_at(tag: nat, bytes: Seq<u8>) -> Seq<u8> {
    varint_bytes(8 * tag + 2) + (varint_bytes(bytes.len()) + bytes)
}

/// A number field, negative numbers in two's complement.
pub open spec fn number_at(tag: nat, value: int) -> Seq<u8> {
    varint_bytes(8 * tag) + varint_bytes((value % 0x1_0000_0000_0000_0000) as nat)
}

proof fn lemma_two(a: Field, b: Field)
    ensures
        message(seq![a] + seq![b]) == a.encoded() + b.encoded(),
{
    lemma_message_concat(seq![a], seq![b]);
    lemma_message_one(a);
    lemma_message_one(b);
}

proof fn lemma_signed(tag: nat, v: i64)
    ensures
        crate::wire::signed_field(tag, v as int).encoded() == number_at(tag, v as int),
{
    assert(crate::wire::unsigned(v as int) == v as int % 0x1_0000_0000_0000_0000);
}

/// Where the standard puts the parts of an attribute: the name in field 1, a float in 2, an integer
/// in 3, a text in 4, and the kind of value, which is 1, 2 or 3, in 20.
pub proof fn lemma_attributes_as_the_standard_writes_them(
    name: Seq<char>,
    bits: u32,
    v: i64,
    text: Seq<char>,
)
    ensures
        attribute_of((name, AttrModel::Int(v))).bytes() == text_at(1, name) + number_at(3, v as int)
            + number_at(20, 2),
        attribute_of((name, AttrModel::Float(bits))).bytes() == text_at(1, name) + (varint_bytes(21)
            + le_bytes(bits as nat, 4)) + number_at(20, 1),
        attribute_of((name, AttrModel::Text(text))).bytes() == text_at(1, name) + text_at(4, text)
            + number_at(20, 3),
{
    let none = Seq::<Field>::empty();
    let n = crate::wire::text_field(1, name);
    lemma_signed(3, v);
    lemma_signed(20, 1);
    lemma_signed(20, 2);
    lemma_signed(20, 3);
    let a = attribute_of((name, AttrModel::Int(v)));
    let x = crate::wire::signed_field(3, v as int);
    let k = crate::wire::signed_field(20, 2);
    assert(a.fields() =~= seq![n] + seq![x] + seq![k]);
    lemma_message_concat(seq![n] + seq![x], seq![k]);
    lemma_two(n, x);
    lemma_message_one(k);
    let b = attribute_of((name, AttrModel::Float(bits)));
    let y = Field::Word { tag: 2, bits };
    let l = crate::wire::signed_field(20, 1);
    assert(b.fields() =~= seq![n] + seq![y] + seq![l]);
    lemma_message_concat(seq![n] + seq![y], seq![l]);
    lemma_two(n, y);
    lemma_message_one(l);
    let c = attribute_of((name, AttrModel::Text(text)));
    let z = Field::Bytes { tag: 4, bytes: encode_utf8(text) };
    let m = crate::wire::signed_field(20, 3);
    assert(c.fields() =~= seq![n] + seq![z] + seq![m]);
    lemma_message_concat(seq![n] + seq![z], seq![m]);
    lemma_two(n, z);
    lemma_message_one(m);
}

/// A list of integers is written as one field 8 for each, between the name and the kind, which
/// is 7.
pub proof fn lemma_lists_as_the_standard_writes_them(name: Seq<char>, v: Seq<i64>, i: int)
    requires
        0 <= i < v.len(),
    ensures
        ({
            let fields = attribute_of((name, AttrModel::Ints(v))).fields();
            &&& fields.len() == v.len() + 2
            &&& fields[0].encoded() == text_at(1, name)
            &&& fields[i + 1].encoded() == number_at(8, v[i] as int)
            &&& fields[v.len() as int + 1].encoded() == number_at(20, 7)
        }),
{
    lemma_signed(8, v[i]);
    lemma_signed(20, 7);
}

/// Where the standard puts the parts of a constant: an extent in field 1, for each axis, the type
/// in 2, the name in 8 and the raw bytes in 9.
pub proof fn lemma_constants_as_the_standard_writes_them(t: TensorModel, i: int)
    requires
        0 <= i < t.dims.len(),
    ensures
        ({
            let fields = constant_of(t).fields();
            let rank = t.dims.len() as int;
            &&& fields.len() == rank + 3
            &&& fields[i].encoded() == number_at(1, t.dims[i] as int)
            &&& fields[rank].encoded() == number_at(2, standard_number(kind_of(t.data)))
            &&& fields[rank + 1].encoded() == text_at(8, t.name)
            &&& fields[rank + 2].encoded() == bytes_at(9, data_bytes(t.data))
        }),
{
    lemma_signed(1, t.dims[i]);
    lemma_signed(2, standard_number(kind_of(t.data)) as i64);
}

/// Where the standard puts what is declared of an input or an output: the name in field 1, and in
/// field 2 a type, whose field 1 is a tensor type, whose fields are the type of the elements and
/// the shape.
pub proof fn lemma_declarations_as_the_standard_writes_them(v: ValueInfoModel)
    ensures
        v.bytes() == text_at(1, v.name) + bytes_at(
            2,
            bytes_at(
                1,
                number_at(1, v.elem_type as int) + bytes_at(2, crate::model::shape_bytes(v.dims)),
            ),
        ),
{
    let elem = crate::wire::signed_field(1, v.elem_type as int);
    let shape = Field::Bytes { tag: 2, bytes: crate::model::shape_bytes(v.dims) };
    lemma_signed(1, v.elem_type as i64);
    lemma_two(elem, shape);
    let tensor = Field::Bytes { tag: 1, bytes: v.tensor_type() };
    lemma_message_one(tensor);
    let name = crate::wire::text_field(1, v.name);
    let kind = Field::Bytes { tag: 2, bytes: message(seq![tensor]) };
    lemma_two(name, kind);
}

/// A shape is written as one field 1 for each extent, which is a message with the extent in
/// field 1.
pub proof fn lemma_shapes_as_the_standard_writes_them(dims: Seq<i64>, next: i64)
    ensures
        crate::model::shape_bytes(Seq::empty()) == Seq::<u8>::empty(),
        crate::model::shape_bytes(dims.push(next)) == crate::model::shape_bytes(dims) + bytes_at(
            1,
            number_at(1, next as int),
        ),
{
    let one = |d: Seq<i64>|
        crate::wire::message_fields(
            1,
            Seq::new(d.len(), |i: int| crate::model::extent_bytes(d[i])),
        );
    let last = Field::Bytes { tag: 1, bytes: crate::model::extent_bytes(next) };
    assert(one(dims.push(next)) =~= one(dims) + seq![last]);
    lemma_message_concat(one(dims), seq![last]);
    lemma_message_one(last);
    lemma_message_one(crate::wire::signed_field(1, next as int));
    lemma_signed(1, next);
    assert(one(Seq::<i64>::empty()) =~= Seq::empty());
}

/// Where the standard puts the parts of a model with one node: the version of the format in
/// field 1, the producer in 2, the graph in 7 and the version of the operators in 8.
pub proof fn lemma_models_as_the_standard_writes_them(m: ModelModel)
    requires
        m.opset_import.len() == 1,
    ensures
        m.bytes() == number_at(1, m.ir_version as int) + text_at(2, m.producer_name) + bytes_at(
            7,
            m.graph.bytes(),
        ) + bytes_at(
            8,
            text_at(1, m.opset_import[0].domain) + number_at(2, m.opset_import[0].version as int),
        ),
{
    let a = crate::wire::signed_field(1, m.ir_version as int);
    let b = crate::wire::text_field(2, m.producer_name);
    let c = Field::Bytes { tag: 7, bytes: m.graph.bytes() };
    let d = Field::Bytes { tag: 8, bytes: m.opset_import[0].bytes() };
    assert(m.fields() =~= seq![a] + seq![b] + seq![c] + seq![d]);
    lemma_two(a, b);
    lemma_message_concat(seq![a] + seq![b], seq![c]);
    lemma_message_concat(seq![a] + seq![b] + seq![c], seq![d]);
    lemma_message_one(c);
    lemma_message_one(d);
    lemma_signed(1, m.ir_version);
    let o = m.opset_import[0];
    let e = crate::wire::text_field(1, o.domain);
    let f = crate::wire::signed_field(2, o.version as int);
    lemma_two(e, f);
    lemma_signed(2, o.version);
}

/// Where the standard puts the parts of a graph: the nodes in field 1, the name in 2, the constants
/// in 5, the inputs in 11 and the outputs in 12.
pub proof fn lemma_graphs_as_the_standard_writes_them(g: GraphModel, i: int)
    requires
        0 <= i,
    ensures
        ({
            let fields = g.fields();
            let (a, b, c, d) = (
                g.node.len() as int,
                g.initializer.len() as int,
                g.input.len() as int,
                g.output.len() as int,
            );
            &&& fields.len() == a + 1 + b + c + d
            &&& i < a ==> fields[i].encoded() == bytes_at(1, g.node[i].bytes())
            &&& fields[a].encoded() == text_at(2, g.name)
            &&& i < b ==> fields[a + 1 + i].encoded() == bytes_at(5, g.initializer[i].bytes())
            &&& i < c ==> fields[a + 1 + b + i].encoded() == bytes_at(11, g.input[i].bytes())
            &&& i < d ==> fields[a + 1 + b + c + i].encoded() == bytes_at(12, g.output[i].bytes())
        }),
{
}

/// Where the standard puts the parts of a node: the inputs in field 1, the outputs in 2, the name
/// in 3, the operator in 4 and the attributes in 5.
pub proof fn lemma_nodes_as_the_standard_writes_them(n: NodeModel, i: int)
    requires
        0 <= i,
    ensures
        ({
            let fields = n.fields();
            let (a, b, c) = (
                n.input.len() as int,
                n.output.len() as int,
                n.attribute.len() as int,
            );
            &&& fields.len() == a + b + 2 + c
            &&& i < a ==> fields[i].encoded() == text_at(1, n.input[i])
            &&& i < b ==> fields[a + i].encoded() == text_at(2, n.output[i])
            &&& fields[a + b].encoded() == text_at(3, n.name)
            &&& fields[a + b + 1].encoded() == text_at(4, n.op_type)
            &&& i < c ==> fields[a + b + 2 + i].encoded() == bytes_at(5, n.attribute[i].bytes())
        }),
{
}

// ---- the model of a case ----

/// The model of a case is of version 10 of the format and of the case's own version of the
/// operators. Its one node applies the operator to every input in order and gives every output.
pub proof fn lemma_a_model_is_about_its_case(c: CaseModel, i: int)
    requires
        0 <= i < c.inputs.len(),
    ensures
        ({
            let m = model_of(c);
            let node = m.graph.node[0];
            &&& m.ir_version == 10
            &&& m.opset_import.len() == 1
            &&& m.opset_import[0].version == c.opset
            &&& m.opset_import[0].domain == ""@
            &&& m.graph.node.len() == 1
            &&& node.op_type == c.op.text()
            &&& node.input.len() == c.inputs.len()
            &&& node.input[i] == c.inputs[i].name
            &&& node.attribute.len() == c.attrs.len()
            &&& node.output.len() == m.graph.output.len()
            &&& node.output[0] == m.graph.output[0].name
            &&& m.graph.output[0].elem_type == standard_number(output_elem(c))
            &&& m.graph.output[0].dims == output_dims(c)
            &&& m.graph.output.len() == (if c.op == OpKind::DynamicQuantizeLinear {
                3int
            } else {
                1
            })
        }),
{
}

/// The three outputs of a dynamic quantization are the bytes, a single-precision scale and a zero
/// point of one byte, and go by three names.
pub proof fn lemma_a_dynamic_quantization_has_three_outputs(c: CaseModel)
    requires
        c.op == OpKind::DynamicQuantizeLinear,
    ensures
        ({
            let out = model_of(c).graph.output;
            &&& out.len() == 3
            &&& out[1].elem_type == standard_number(ElemType::F32) && out[1].dims.len() == 0
            &&& out[2].elem_type == standard_number(ElemType::U8) && out[2].dims.len() == 0
            &&& out[0].name != out[1].name && out[1].name != out[2].name && out[0].name
                != out[2].name
        }),
{
    reveal_strlit("out");
    reveal_strlit("out_scale");
    reveal_strlit("out_zero_point");
    assert("out"@.len() == 3 && "out_scale"@.len() == 9 && "out_zero_point"@.len() == 14);
}

/// An attribute of a case keeps its name and its value, and has one value.
pub proof fn lemma_an_attribute_keeps_its_value(c: CaseModel, i: int)
    requires
        0 <= i < c.attrs.len(),
    ensures
        ({
            let a = model_of(c).graph.node[0].attribute[i];
            &&& a.name == c.attrs[i].0
            &&& match c.attrs[i].1 {
                AttrModel::Int(v) => a.i == Some(v) && a.f is None && a.s is None && a.ints.len()
                    == 0 && a.kind == 2,
                AttrModel::Float(bits) => a.f == Some(bits) && a.i is None && a.s is None
                    && a.ints.len() == 0 && a.kind == 1,
                AttrModel::Text(t) => a.s == Some(encode_utf8(t)) && a.i is None && a.f is None
                    && a.ints.len() == 0 && a.kind == 3,
                AttrModel::Ints(v) => a.ints == v && a.i is None && a.f is None && a.s is None
                    && a.kind == 7,
            }
        }),
{
}

proof fn lemma_in_filter(s: Seq<TensorModel>, f: spec_fn(TensorModel) -> bool, i: int)
    requires
        0 <= i < s.len(),
    ensures
        s.filter(f).contains(s[i]) == f(s[i]),
{
    if f(s[i]) {
        s.lemma_filter_contains(f, i);
    }
    if s.filter(f).contains(s[i]) {
        let k = choose|k: int| 0 <= k < s.filter(f).len() && s.filter(f)[k] == s[i];
        s.lemma_filter_pred(f, k);
    }
}

/// An input that is fed is declared with its name, its type and its shape. One that is stored is a
/// constant of the model, with its bytes as they stand.
pub proof fn lemma_an_input_is_fed_or_stored(c: CaseModel, i: int)
    requires
        0 <= i < c.inputs.len(),
    ensures
        ({
            let t = c.inputs[i];
            let g = model_of(c).graph;
            &&& t.role == InputRole::Data ==> exists|k: int|
                0 <= k < g.input.len() && (#[trigger] g.input[k]).name == t.name
                    && g.input[k].elem_type == standard_number(kind_of(t.data)) && g.input[k].dims
                    == t.dims
            &&& t.role == InputRole::Initializer ==> exists|k: int|
                0 <= k < g.initializer.len() && (#[trigger] g.initializer[k]).name == t.name
                    && g.initializer[k].data_type == standard_number(kind_of(t.data))
                    && g.initializer[k].dims == t.dims && g.initializer[k].raw_data == data_bytes(
                    t.data,
                )
            &&& g.input.len() + g.initializer.len() == c.inputs.len()
        }),
{
    let f = |t: TensorModel| t.initializer() == false;
    let h = |t: TensorModel| t.initializer() == true;
    let t = c.inputs[i];
    let g = model_of(c).graph;
    lemma_in_filter(c.inputs, f, i);
    lemma_in_filter(c.inputs, h, i);
    let (fed, kept) = (c.inputs.filter(f), c.inputs.filter(h));
    if t.role == InputRole::Data {
        let k = choose|k: int| 0 <= k < fed.len() && fed[k] == t;
        assert(g.input[k].name == t.name);
    } else {
        let k = choose|k: int| 0 <= k < kept.len() && kept[k] == t;
        assert(g.initializer[k].name == t.name);
    }
    lemma_parted(c.inputs);
}

proof fn lemma_parted(s: Seq<TensorModel>)
    ensures
        s.filter(|t: TensorModel| t.initializer() == false).len() + s.filter(
            |t: TensorModel| t.initializer() == true,
        ).len() == s.len(),
    decreases s.len(),
{
    reveal(Seq::filter);
    if s.len() > 0 {
        lemma_parted(s.drop_last());
    }
}

// ---- the reference process ----

/// A request is the model behind its length, the number of tensors, and the tensors one after
/// another: each its name, the number of its type, its rank, its extents and its bytes, with every
/// length and number in four bytes and every extent in eight.
pub proof fn lemma_a_request_is_sent_in_parts(
    model: Seq<u8>,
    dims: Seq<i64>,
    extent: i64,
    ts: Seq<TensorModel>,
    next: TensorModel,
)
    ensures
        extents(Seq::empty()) == Seq::<u8>::empty(),
        extents(dims.push(extent)) == extents(dims) + le_bytes(
            (extent as int % 0x1_0000_0000_0000_0000) as nat,
            8,
        ),
        tensor_frames(Seq::empty()) == Seq::<u8>::empty(),
        tensor_frames(ts.push(next)) == tensor_frames(ts) + tensor_frame(next),
        request(model, ts) == le_bytes(model.len(), 4) + model + le_bytes(ts.len(), 4)
            + tensor_frames(ts),
        tensor_frame(next) == le_bytes(encode_utf8(next.name).len(), 4) + encode_utf8(next.name)
            + le_bytes(standard_number(kind_of(next.data)) as nat, 4) + le_bytes(
            next.dims.len(),
            4,
        ) + extents(next.dims) + (le_bytes(data_bytes(next.data).len(), 4) + data_bytes(next.data)),
{
    assert(dims.push(extent).drop_last() =~= dims);
    assert(ts.push(next).drop_last() =~= ts);
}

/// A reply that begins with a one is a refusal, and carries its message.
pub proof fn lemma_a_refusal_is_read_back(text: Seq<char>)
    requires
        encode_utf8(text).len() < 0x1_0000_0000,
    ensures
        read_reply(seq![1u8] + framed(encode_utf8(text))) == Read::Got(
            OutcomeModel::Rejected(text),
            (5 + encode_utf8(text).len()) as int,
        ),
{
    let b = seq![1u8] + framed(encode_utf8(text));
    let none = Seq::<u8>::empty();
    assert(b =~= seq![1u8] + framed(encode_utf8(text)) + none);
    lemma_framed_back(seq![1u8], encode_utf8(text), none);
    lemma_le_bytes_len(encode_utf8(text).len(), 4);
    encode_utf8_valid_utf8(text);
    encode_utf8_decode_utf8(text);
}

} // verus!
