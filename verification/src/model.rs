//! Building a model with one node, and its bytes.
//!
//! The bytes go to every runtime unchanged: were a model built for each of them apart, a difference
//! in the answers could be one in what was asked. Two version numbers stand in a model. The version
//! of the container says what a model may hold; the opset version says which definitions of the
//! operators apply.

use vstd::prelude::*;

use crate::attrs::{AttrModel, AttrValue, Attrs};
use crate::case::{data_bytes, CaseModel, ElemType, OnnxCase, OpKind, TensorModel, TensorValue};
use crate::ops::{copy_dims, extra_outputs, output_dims, output_elem, output_fits, output_spec};
use crate::ops::Family;
use crate::text::{lowercase, lowercase_text, texts};
use crate::wire::{all_numbered, append_all_signed, append_bytes, append_messages, append_signed};
use crate::wire::{append_text, append_texts, append_word};
use crate::wire::{lemma_fields_are_told_apart, lemma_message_concat, lemma_message_one};
use crate::wire::{lemma_runs_are_told_apart, lemma_signed_is_told_apart, lemma_text_is_told_apart};
use crate::wire::{message, message_fields, signed_field, signed_fields, starts_beyond, text_field};
use crate::wire::{text_fields, varint_bytes, Field};
use vstd::utf8::encode_utf8;

pub use crate::gen_shape::DEFAULT_OPSET;

verus! {

/// The version of the container. A runtime refuses to load a model whose version it does not know,
/// so an old one is written.
pub const IR_VERSION: i64 = 10;

// ---- what a model is made of ----

/// One attribute of a node.
#[derive(Debug, PartialEq, Eq)]
pub struct AttributeProto {
    pub name: String,
    /// The bit pattern of a single-precision number.
    pub f: Option<u32>,
    pub i: Option<i64>,
    /// The bytes of a text.
    pub s: Option<Vec<u8>>,
    pub ints: Vec<i64>,
    /// Which of these is in use.
    pub kind: i32,
}

/// What an [`AttributeProto`] holds.
#[verifier::ext_equal]
pub struct AttributeModel {
    pub name: Seq<char>,
    pub f: Option<u32>,
    pub i: Option<i64>,
    pub s: Option<Seq<u8>>,
    pub ints: Seq<i64>,
    pub kind: i32,
}

impl View for AttributeProto {
    type V = AttributeModel;

    open spec fn view(&self) -> AttributeModel {
        AttributeModel {
            name: self.name@,
            f: self.f,
            i: self.i,
            s: match self.s {
                Some(v) => Some(v@),
                None => None,
            },
            ints: self.ints@,
            kind: self.kind,
        }
    }
}

/// A constant inside a model.
#[derive(Debug, PartialEq, Eq)]
pub struct TensorProto {
    pub dims: Vec<i64>,
    pub data_type: i32,
    pub name: String,
    pub raw_data: Vec<u8>,
}

/// What a [`TensorProto`] holds.
#[verifier::ext_equal]
pub struct ConstantModel {
    pub dims: Seq<i64>,
    pub data_type: i32,
    pub name: Seq<char>,
    pub raw_data: Seq<u8>,
}

impl View for TensorProto {
    type V = ConstantModel;

    open spec fn view(&self) -> ConstantModel {
        ConstantModel {
            dims: self.dims@,
            data_type: self.data_type,
            name: self.name@,
            raw_data: self.raw_data@,
        }
    }
}

/// An input or an output of a graph: always with a type and a shape.
#[derive(Debug, PartialEq, Eq)]
pub struct ValueInfoProto {
    pub name: String,
    pub elem_type: i32,
    pub dims: Vec<i64>,
}

/// What a [`ValueInfoProto`] holds.
#[verifier::ext_equal]
pub struct ValueInfoModel {
    pub name: Seq<char>,
    pub elem_type: i32,
    pub dims: Seq<i64>,
}

impl View for ValueInfoProto {
    type V = ValueInfoModel;

    open spec fn view(&self) -> ValueInfoModel {
        ValueInfoModel { name: self.name@, elem_type: self.elem_type, dims: self.dims@ }
    }
}

/// One application of an operator.
#[derive(Debug, PartialEq, Eq)]
pub struct NodeProto {
    pub input: Vec<String>,
    pub output: Vec<String>,
    pub name: String,
    pub op_type: String,
    pub attribute: Vec<AttributeProto>,
}

/// What a [`NodeProto`] holds.
#[verifier::ext_equal]
pub struct NodeModel {
    pub input: Seq<Seq<char>>,
    pub output: Seq<Seq<char>>,
    pub name: Seq<char>,
    pub op_type: Seq<char>,
    pub attribute: Seq<AttributeModel>,
}

/// The models of a sequence of attributes.
pub open spec fn attributes_model(v: Seq<AttributeProto>) -> Seq<AttributeModel> {
    Seq::new(v.len(), |i: int| v[i]@)
}

impl View for NodeProto {
    type V = NodeModel;

    open spec fn view(&self) -> NodeModel {
        NodeModel {
            input: texts(self.input@),
            output: texts(self.output@),
            name: self.name@,
            op_type: self.op_type@,
            attribute: attributes_model(self.attribute@),
        }
    }
}

/// The nodes of a model, with what goes in and what comes out.
#[derive(Debug, PartialEq, Eq)]
pub struct GraphProto {
    pub node: Vec<NodeProto>,
    pub name: String,
    pub initializer: Vec<TensorProto>,
    pub input: Vec<ValueInfoProto>,
    pub output: Vec<ValueInfoProto>,
}

/// What a [`GraphProto`] holds.
#[verifier::ext_equal]
pub struct GraphModel {
    pub node: Seq<NodeModel>,
    pub name: Seq<char>,
    pub initializer: Seq<ConstantModel>,
    pub input: Seq<ValueInfoModel>,
    pub output: Seq<ValueInfoModel>,
}

/// The models of a sequence of nodes.
pub open spec fn nodes_model(v: Seq<NodeProto>) -> Seq<NodeModel> {
    Seq::new(v.len(), |i: int| v[i]@)
}

/// The models of a sequence of constants.
pub open spec fn constants_model(v: Seq<TensorProto>) -> Seq<ConstantModel> {
    Seq::new(v.len(), |i: int| v[i]@)
}

/// The models of a sequence of inputs or outputs.
pub open spec fn infos_model(v: Seq<ValueInfoProto>) -> Seq<ValueInfoModel> {
    Seq::new(v.len(), |i: int| v[i]@)
}

impl View for GraphProto {
    type V = GraphModel;

    open spec fn view(&self) -> GraphModel {
        GraphModel {
            node: nodes_model(self.node@),
            name: self.name@,
            initializer: constants_model(self.initializer@),
            input: infos_model(self.input@),
            output: infos_model(self.output@),
        }
    }
}

/// Which definitions of the operators of a domain apply.
#[derive(Debug, PartialEq, Eq)]
pub struct OperatorSetIdProto {
    pub domain: String,
    pub version: i64,
}

/// What an [`OperatorSetIdProto`] holds.
#[verifier::ext_equal]
pub struct OpsetModel {
    pub domain: Seq<char>,
    pub version: i64,
}

impl View for OperatorSetIdProto {
    type V = OpsetModel;

    open spec fn view(&self) -> OpsetModel {
        OpsetModel { domain: self.domain@, version: self.version }
    }
}

/// A model.
#[derive(Debug, PartialEq, Eq)]
pub struct ModelProto {
    pub ir_version: i64,
    pub producer_name: String,
    pub graph: GraphProto,
    pub opset_import: Vec<OperatorSetIdProto>,
}

/// What a [`ModelProto`] holds.
#[verifier::ext_equal]
pub struct ModelModel {
    pub ir_version: i64,
    pub producer_name: Seq<char>,
    pub graph: GraphModel,
    pub opset_import: Seq<OpsetModel>,
}

/// The models of a sequence of opset versions.
pub open spec fn opsets_model(v: Seq<OperatorSetIdProto>) -> Seq<OpsetModel> {
    Seq::new(v.len(), |i: int| v[i]@)
}

impl View for ModelProto {
    type V = ModelModel;

    open spec fn view(&self) -> ModelModel {
        ModelModel {
            ir_version: self.ir_version,
            producer_name: self.producer_name@,
            graph: self.graph@,
            opset_import: opsets_model(self.opset_import@),
        }
    }
}

// ---- how a model is written ----

impl AttributeModel {
    pub open spec fn fields(self) -> Seq<Field> {
        seq![text_field(1, self.name)] + (match self.f {
            Some(bits) => seq![Field::Word { tag: 2, bits }],
            None => Seq::empty(),
        }) + (match self.i {
            Some(v) => seq![signed_field(3, v as int)],
            None => Seq::empty(),
        }) + (match self.s {
            Some(bytes) => seq![Field::Bytes { tag: 4, bytes }],
            None => Seq::empty(),
        }) + signed_fields(8, self.ints) + seq![signed_field(20, self.kind as int)]
    }

    pub open spec fn bytes(self) -> Seq<u8> {
        message(self.fields())
    }
}

impl ConstantModel {
    pub open spec fn fields(self) -> Seq<Field> {
        signed_fields(1, self.dims) + seq![signed_field(2, self.data_type as int)] + seq![
            text_field(8, self.name),
        ] + seq![Field::Bytes { tag: 9, bytes: self.raw_data }]
    }

    pub open spec fn bytes(self) -> Seq<u8> {
        message(self.fields())
    }
}

/// An extent, which is always a number and never a symbol.
pub open spec fn extent_bytes(extent: i64) -> Seq<u8> {
    message(seq![signed_field(1, extent as int)])
}

/// A shape.
pub open spec fn shape_bytes(dims: Seq<i64>) -> Seq<u8> {
    message(message_fields(1, Seq::new(dims.len(), |i: int| extent_bytes(dims[i]))))
}

impl ValueInfoModel {
    pub open spec fn tensor_type(self) -> Seq<u8> {
        message(
            seq![signed_field(1, self.elem_type as int)] + seq![
                Field::Bytes { tag: 2, bytes: shape_bytes(self.dims) },
            ],
        )
    }

    pub open spec fn fields(self) -> Seq<Field> {
        seq![text_field(1, self.name)] + seq![
            Field::Bytes {
                tag: 2,
                bytes: message(seq![Field::Bytes { tag: 1, bytes: self.tensor_type() }]),
            },
        ]
    }

    pub open spec fn bytes(self) -> Seq<u8> {
        message(self.fields())
    }
}

impl NodeModel {
    pub open spec fn fields(self) -> Seq<Field> {
        text_fields(1, self.input) + text_fields(2, self.output) + seq![text_field(3, self.name)]
            + seq![text_field(4, self.op_type)] + message_fields(
            5,
            Seq::new(self.attribute.len(), |i: int| self.attribute[i].bytes()),
        )
    }

    pub open spec fn bytes(self) -> Seq<u8> {
        message(self.fields())
    }
}

impl GraphModel {
    pub open spec fn fields(self) -> Seq<Field> {
        message_fields(1, Seq::new(self.node.len(), |i: int| self.node[i].bytes())) + seq![
            text_field(2, self.name),
        ] + message_fields(
            5,
            Seq::new(self.initializer.len(), |i: int| self.initializer[i].bytes()),
        ) + message_fields(11, Seq::new(self.input.len(), |i: int| self.input[i].bytes()))
            + message_fields(12, Seq::new(self.output.len(), |i: int| self.output[i].bytes()))
    }

    pub open spec fn bytes(self) -> Seq<u8> {
        message(self.fields())
    }
}

impl OpsetModel {
    pub open spec fn fields(self) -> Seq<Field> {
        seq![text_field(1, self.domain)] + seq![signed_field(2, self.version as int)]
    }

    pub open spec fn bytes(self) -> Seq<u8> {
        message(self.fields())
    }
}

impl ModelModel {
    pub open spec fn fields(self) -> Seq<Field> {
        seq![signed_field(1, self.ir_version as int)] + seq![text_field(2, self.producer_name)]
            + seq![Field::Bytes { tag: 7, bytes: self.graph.bytes() }] + message_fields(
            8,
            Seq::new(self.opset_import.len(), |i: int| self.opset_import[i].bytes()),
        )
    }

    pub open spec fn bytes(self) -> Seq<u8> {
        message(self.fields())
    }
}

fn write_attribute(x: &AttributeProto) -> (r: Vec<u8>)
    ensures
        r@ == x@.bytes(),
{
    let mut out: Vec<u8> = Vec::new();
    let ghost p0 = seq![text_field(1, x@.name)];
    append_text(1, x.name.as_str(), &mut out);
    let ghost p1 = match x@.f {
        Some(bits) => seq![Field::Word { tag: 2, bits }],
        None => Seq::empty(),
    };
    if let Some(bits) = x.f {
        append_word(2, bits, &mut out);
        proof {
            lemma_message_one(Field::Word { tag: 2, bits });
        }
    }
    proof {
        lemma_message_one(text_field(1, x@.name));
        assert(out@ =~= message(p0) + message(p1));
        lemma_message_concat(p0, p1);
    }
    let ghost p2 = match x@.i {
        Some(v) => seq![signed_field(3, v as int)],
        None => Seq::empty(),
    };
    if let Some(v) = x.i {
        append_signed(3, v, &mut out);
        proof {
            lemma_message_one(signed_field(3, v as int));
        }
    }
    proof {
        assert(out@ =~= message(p0 + p1) + message(p2));
        lemma_message_concat(p0 + p1, p2);
    }
    let ghost p3 = match x@.s {
        Some(bytes) => seq![Field::Bytes { tag: 4, bytes }],
        None => Seq::empty(),
    };
    if let Some(v) = &x.s {
        append_bytes(4, v.as_slice(), &mut out);
        proof {
            lemma_message_one(Field::Bytes { tag: 4, bytes: v@ });
        }
    }
    proof {
        assert(out@ =~= message(p0 + p1 + p2) + message(p3));
        lemma_message_concat(p0 + p1 + p2, p3);
    }
    let ghost p4 = signed_fields(8, x@.ints);
    append_all_signed(8, &x.ints, &mut out);
    let ghost p5 = seq![signed_field(20, x@.kind as int)];
    append_signed(20, x.kind as i64, &mut out);
    proof {
        lemma_message_one(signed_field(20, x@.kind as int));
        lemma_message_concat(p0 + p1 + p2 + p3, p4);
        lemma_message_concat(p0 + p1 + p2 + p3 + p4, p5);
        assert(x@.fields() =~= p0 + p1 + p2 + p3 + p4 + p5);
        assert(out@ =~= message(p0 + p1 + p2 + p3) + message(p4) + message(p5));
    }
    out
}

fn write_constant(x: &TensorProto) -> (r: Vec<u8>)
    ensures
        r@ == x@.bytes(),
{
    let mut out: Vec<u8> = Vec::new();
    let ghost p0: Seq<Field> = signed_fields(1, x@.dims);
    append_all_signed(1, &x.dims, &mut out);
    let ghost p1: Seq<Field> = seq![signed_field(2, x@.data_type as int)];
    append_signed(2, x.data_type as i64, &mut out);
    let ghost p2: Seq<Field> = seq![text_field(8, x@.name)];
    append_text(8, x.name.as_str(), &mut out);
    let ghost p3: Seq<Field> = seq![Field::Bytes { tag: 9, bytes: x@.raw_data }];
    append_bytes(9, x.raw_data.as_slice(), &mut out);
    proof {
        lemma_message_one(signed_field(2, x@.data_type as int));
        lemma_message_one(text_field(8, x@.name));
        lemma_message_one(Field::Bytes { tag: 9, bytes: x@.raw_data });
        lemma_message_concat(p0, p1);
        lemma_message_concat(p0 + p1, p2);
        lemma_message_concat(p0 + p1 + p2, p3);
        assert(x@.fields() =~= p0 + p1 + p2 + p3);
        assert(out@ =~= message(p0) + message(p1) + message(p2) + message(p3));
    }
    out
}

fn write_shape(dims: &Vec<i64>) -> (r: Vec<u8>)
    ensures
        r@ == shape_bytes(dims@),
{
    let mut extents: Vec<Vec<u8>> = Vec::new();
    while extents.len() < dims.len()
        invariant
            extents.len() <= dims.len(),
            forall|k: int| 0 <= k < extents.len() ==> (#[trigger] extents@[k])@ == extent_bytes(dims@[k]),
        decreases dims.len() - extents.len(),
    {
        let at: usize = extents.len();
        let mut one: Vec<u8> = Vec::new();
        append_signed(1, dims[at], &mut one);
        proof {
            lemma_message_one(signed_field(1, dims@[at as int] as int));
            assert(one@ =~= extent_bytes(dims@[at as int]));
        }
        extents.push(one);
    }
    let mut out: Vec<u8> = Vec::new();
    append_messages(1, &extents, &mut out);
    proof {
        assert(Seq::new(extents@.len(), |i: int| extents@[i]@) =~= Seq::new(
            dims@.len(),
            |i: int| extent_bytes(dims@[i]),
        ));
        assert(out@ =~= shape_bytes(dims@));
    }
    out
}

fn write_info(x: &ValueInfoProto) -> (r: Vec<u8>)
    ensures
        r@ == x@.bytes(),
{
    let shape: Vec<u8> = write_shape(&x.dims);
    let mut tensor: Vec<u8> = Vec::new();
    let ghost t0 = seq![signed_field(1, x@.elem_type as int)];
    let ghost t1 = seq![Field::Bytes { tag: 2, bytes: shape@ }];
    append_signed(1, x.elem_type as i64, &mut tensor);
    append_bytes(2, shape.as_slice(), &mut tensor);
    proof {
        lemma_message_one(signed_field(1, x@.elem_type as int));
        lemma_message_one(Field::Bytes { tag: 2, bytes: shape@ });
        lemma_message_concat(t0, t1);
        assert(tensor@ =~= message(t0) + message(t1));
        assert(tensor@ == x@.tensor_type());
    }
    let mut kind: Vec<u8> = Vec::new();
    append_bytes(1, tensor.as_slice(), &mut kind);
    proof {
        lemma_message_one(Field::Bytes { tag: 1, bytes: tensor@ });
        assert(kind@ =~= message(seq![Field::Bytes { tag: 1, bytes: tensor@ }]));
    }
    let mut out: Vec<u8> = Vec::new();
    let ghost p0 = seq![text_field(1, x@.name)];
    let ghost p1 = seq![Field::Bytes { tag: 2, bytes: kind@ }];
    append_text(1, x.name.as_str(), &mut out);
    append_bytes(2, kind.as_slice(), &mut out);
    proof {
        lemma_message_one(text_field(1, x@.name));
        lemma_message_one(Field::Bytes { tag: 2, bytes: kind@ });
        lemma_message_concat(p0, p1);
        assert(x@.fields() =~= p0 + p1);
        assert(out@ =~= message(p0) + message(p1));
    }
    out
}

fn write_node(x: &NodeProto) -> (r: Vec<u8>)
    ensures
        r@ == x@.bytes(),
{
    let mut attributes: Vec<Vec<u8>> = Vec::new();
    while attributes.len() < x.attribute.len()
        invariant
            attributes.len() <= x.attribute.len(),
            forall|k: int| 0 <= k < attributes.len() ==> (#[trigger] attributes@[k])@ == x.attribute@[k]@.bytes(),
        decreases x.attribute.len() - attributes.len(),
    {
        let at: usize = attributes.len();
        attributes.push(write_attribute(&x.attribute[at]));
    }
    assert(Seq::new(attributes@.len(), |i: int| attributes@[i]@) =~= Seq::new(x@.attribute.len(), |i: int| x@.attribute[i].bytes()));
    let mut out: Vec<u8> = Vec::new();
    let ghost p0: Seq<Field> = text_fields(1, x@.input);
    append_texts(1, &x.input, &mut out);
    let ghost p1: Seq<Field> = text_fields(2, x@.output);
    append_texts(2, &x.output, &mut out);
    let ghost p2: Seq<Field> = seq![text_field(3, x@.name)];
    append_text(3, x.name.as_str(), &mut out);
    let ghost p3: Seq<Field> = seq![text_field(4, x@.op_type)];
    append_text(4, x.op_type.as_str(), &mut out);
    let ghost p4: Seq<Field> = message_fields(5, Seq::new(x@.attribute.len(), |i: int| x@.attribute[i].bytes()));
    append_messages(5, &attributes, &mut out);
    proof {
        lemma_message_one(text_field(3, x@.name));
        lemma_message_one(text_field(4, x@.op_type));
        lemma_message_concat(p0, p1);
        lemma_message_concat(p0 + p1, p2);
        lemma_message_concat(p0 + p1 + p2, p3);
        lemma_message_concat(p0 + p1 + p2 + p3, p4);
        assert(x@.fields() =~= p0 + p1 + p2 + p3 + p4);
        assert(out@ =~= message(p0) + message(p1) + message(p2) + message(p3) + message(p4));
    }
    out
}

fn write_graph(x: &GraphProto) -> (r: Vec<u8>)
    ensures
        r@ == x@.bytes(),
{
    let mut nodes: Vec<Vec<u8>> = Vec::new();
    while nodes.len() < x.node.len()
        invariant
            nodes.len() <= x.node.len(),
            forall|k: int| 0 <= k < nodes.len() ==> (#[trigger] nodes@[k])@ == x.node@[k]@.bytes(),
        decreases x.node.len() - nodes.len(),
    {
        let at: usize = nodes.len();
        nodes.push(write_node(&x.node[at]));
    }
    assert(Seq::new(nodes@.len(), |i: int| nodes@[i]@) =~= Seq::new(x@.node.len(), |i: int| x@.node[i].bytes()));
    let mut constants: Vec<Vec<u8>> = Vec::new();
    while constants.len() < x.initializer.len()
        invariant
            constants.len() <= x.initializer.len(),
            forall|k: int| 0 <= k < constants.len() ==> (#[trigger] constants@[k])@ == x.initializer@[k]@.bytes(),
        decreases x.initializer.len() - constants.len(),
    {
        let at: usize = constants.len();
        constants.push(write_constant(&x.initializer[at]));
    }
    assert(Seq::new(constants@.len(), |i: int| constants@[i]@) =~= Seq::new(x@.initializer.len(), |i: int| x@.initializer[i].bytes()));
    let mut inputs: Vec<Vec<u8>> = Vec::new();
    while inputs.len() < x.input.len()
        invariant
            inputs.len() <= x.input.len(),
            forall|k: int| 0 <= k < inputs.len() ==> (#[trigger] inputs@[k])@ == x.input@[k]@.bytes(),
        decreases x.input.len() - inputs.len(),
    {
        let at: usize = inputs.len();
        inputs.push(write_info(&x.input[at]));
    }
    assert(Seq::new(inputs@.len(), |i: int| inputs@[i]@) =~= Seq::new(x@.input.len(), |i: int| x@.input[i].bytes()));
    let mut outputs: Vec<Vec<u8>> = Vec::new();
    while outputs.len() < x.output.len()
        invariant
            outputs.len() <= x.output.len(),
            forall|k: int| 0 <= k < outputs.len() ==> (#[trigger] outputs@[k])@ == x.output@[k]@.bytes(),
        decreases x.output.len() - outputs.len(),
    {
        let at: usize = outputs.len();
        outputs.push(write_info(&x.output[at]));
    }
    assert(Seq::new(outputs@.len(), |i: int| outputs@[i]@) =~= Seq::new(x@.output.len(), |i: int| x@.output[i].bytes()));
    let mut out: Vec<u8> = Vec::new();
    let ghost p0: Seq<Field> = message_fields(1, Seq::new(x@.node.len(), |i: int| x@.node[i].bytes()));
    append_messages(1, &nodes, &mut out);
    let ghost p1: Seq<Field> = seq![text_field(2, x@.name)];
    append_text(2, x.name.as_str(), &mut out);
    let ghost p2: Seq<Field> = message_fields(5, Seq::new(x@.initializer.len(), |i: int| x@.initializer[i].bytes()));
    append_messages(5, &constants, &mut out);
    let ghost p3: Seq<Field> = message_fields(11, Seq::new(x@.input.len(), |i: int| x@.input[i].bytes()));
    append_messages(11, &inputs, &mut out);
    let ghost p4: Seq<Field> = message_fields(12, Seq::new(x@.output.len(), |i: int| x@.output[i].bytes()));
    append_messages(12, &outputs, &mut out);
    proof {
        lemma_message_one(text_field(2, x@.name));
        lemma_message_concat(p0, p1);
        lemma_message_concat(p0 + p1, p2);
        lemma_message_concat(p0 + p1 + p2, p3);
        lemma_message_concat(p0 + p1 + p2 + p3, p4);
        assert(x@.fields() =~= p0 + p1 + p2 + p3 + p4);
        assert(out@ =~= message(p0) + message(p1) + message(p2) + message(p3) + message(p4));
    }
    out
}

fn write_opset(x: &OperatorSetIdProto) -> (r: Vec<u8>)
    ensures
        r@ == x@.bytes(),
{
    let mut out: Vec<u8> = Vec::new();
    let ghost p0: Seq<Field> = seq![text_field(1, x@.domain)];
    append_text(1, x.domain.as_str(), &mut out);
    let ghost p1: Seq<Field> = seq![signed_field(2, x@.version as int)];
    append_signed(2, x.version, &mut out);
    proof {
        lemma_message_one(text_field(1, x@.domain));
        lemma_message_one(signed_field(2, x@.version as int));
        lemma_message_concat(p0, p1);
        assert(x@.fields() =~= p0 + p1);
        assert(out@ =~= message(p0) + message(p1));
    }
    out
}

/// The bytes of a model, which every runtime is handed.
pub fn to_bytes(model: &ModelProto) -> (r: Vec<u8>)
    ensures
        r@ == model@.bytes(),
{
    let graph: Vec<u8> = write_graph(&model.graph);
    let mut opsets: Vec<Vec<u8>> = Vec::new();
    while opsets.len() < model.opset_import.len()
        invariant
            opsets.len() <= model.opset_import.len(),
            forall|k: int| 0 <= k < opsets.len() ==> (#[trigger] opsets@[k])@ == model.opset_import@[k]@.bytes(),
        decreases model.opset_import.len() - opsets.len(),
    {
        let at: usize = opsets.len();
        opsets.push(write_opset(&model.opset_import[at]));
    }
    assert(Seq::new(opsets@.len(), |i: int| opsets@[i]@) =~= Seq::new(model@.opset_import.len(), |i: int| model@.opset_import[i].bytes()));
    let mut out: Vec<u8> = Vec::new();
    let ghost p0: Seq<Field> = seq![signed_field(1, model@.ir_version as int)];
    append_signed(1, model.ir_version, &mut out);
    let ghost p1: Seq<Field> = seq![text_field(2, model@.producer_name)];
    append_text(2, model.producer_name.as_str(), &mut out);
    let ghost p2: Seq<Field> = seq![Field::Bytes { tag: 7, bytes: model@.graph.bytes() }];
    append_bytes(7, graph.as_slice(), &mut out);
    let ghost p3: Seq<Field> = message_fields(8, Seq::new(model@.opset_import.len(), |i: int| model@.opset_import[i].bytes()));
    append_messages(8, &opsets, &mut out);
    proof {
        lemma_message_one(signed_field(1, model@.ir_version as int));
        lemma_message_one(text_field(2, model@.producer_name));
        lemma_message_one(Field::Bytes { tag: 7, bytes: model@.graph.bytes() });
        lemma_message_concat(p0, p1);
        lemma_message_concat(p0 + p1, p2);
        lemma_message_concat(p0 + p1 + p2, p3);
        assert(model@.fields() =~= p0 + p1 + p2 + p3);
        assert(out@ =~= message(p0) + message(p1) + message(p2) + message(p3));
    }
    out
}

// ---- building a model ----

/// An attribute as a node carries it: the value, and which kind of value it is.
pub open spec fn attribute_of(entry: (Seq<char>, AttrModel)) -> AttributeModel {
    AttributeModel {
        name: entry.0,
        f: match entry.1 {
            AttrModel::Float(bits) => Some(bits),
            _ => None,
        },
        i: match entry.1 {
            AttrModel::Int(v) => Some(v),
            _ => None,
        },
        s: match entry.1 {
            AttrModel::Text(v) => Some(encode_utf8(v)),
            _ => None,
        },
        ints: match entry.1 {
            AttrModel::Ints(v) => v,
            _ => Seq::empty(),
        },
        kind: entry.1.attribute_type(),
    }
}

fn attribute(name: &str, value: &AttrValue) -> (r: AttributeProto)
    ensures
        r@ == attribute_of((name@, value@)),
{
    let mut proto: AttributeProto = AttributeProto {
        name: name.to_owned(),
        f: None,
        i: None,
        s: None,
        ints: Vec::new(),
        kind: value.attribute_type(),
    };
    assert(proto.ints@ =~= Seq::empty());
    match value {
        AttrValue::Int(v) => {
            proto.i = Some(*v);
        },
        AttrValue::Ints(v) => {
            proto.ints = copy_dims(v);
        },
        AttrValue::Float(bits) => {
            proto.f = Some(*bits);
        },
        AttrValue::String(v) => {
            proto.s = Some(v.as_str().as_bytes_vec());
        },
    }
    assert(proto@ =~= attribute_of((name@, value@)));
    proto
}

impl Attrs {
    /// The attributes as a node carries them, in order.
    pub fn to_protos(&self) -> (r: Vec<AttributeProto>)
        ensures
            attributes_model(r@) == Seq::new(self@.len(), |i: int| attribute_of(self@[i])),
    {
        let mut out: Vec<AttributeProto> = Vec::new();
        while out.len() < self.len()
            invariant
                out.len() <= self@.len(),
                forall|k: int| 0 <= k < out.len() ==> (#[trigger] out@[k])@ == attribute_of(self@[k]),
            decreases self@.len() - out.len(),
        {
            let i: usize = out.len();
            let (name, value): (&str, &AttrValue) = self.at(i);
            out.push(attribute(name, value));
        }
        assert(attributes_model(out@) =~= Seq::new(self@.len(), |i: int| attribute_of(self@[i])));
        out
    }
}

/// An input or an output with its type and shape.
pub open spec fn info_of(name: Seq<char>, elem: ElemType, dims: Seq<i64>) -> ValueInfoModel {
    ValueInfoModel { name, elem_type: elem.wire_number(), dims }
}

fn value_info(name: &str, elem: ElemType, dims: &Vec<i64>) -> (r: ValueInfoProto)
    ensures
        r@ == info_of(name@, elem, dims@),
{
    ValueInfoProto { name: name.to_owned(), elem_type: elem.wire(), dims: copy_dims(dims) }
}

/// The name of the node that applies an operator.
pub open spec fn node_name(op_type: Seq<char>) -> Seq<char> {
    lowercase_text(op_type) + "_0"@
}

/// A model around a graph, at an opset version of the main operator set.
pub open spec fn model_around(graph: GraphModel, opset: i64) -> ModelModel {
    ModelModel {
        ir_version: IR_VERSION,
        producer_name: "diff-fuzzer"@,
        graph,
        opset_import: seq![OpsetModel { domain: ""@, version: opset }],
    }
}

fn around(graph: GraphProto, opset: i64) -> (r: ModelProto)
    ensures
        r@ == model_around(graph@, opset),
{
    let opsets: Vec<OperatorSetIdProto> = vec![
        OperatorSetIdProto { domain: "".to_owned(), version: opset },
    ];
    let r: ModelProto = ModelProto {
        ir_version: IR_VERSION,
        producer_name: "diff-fuzzer".to_owned(),
        graph,
        opset_import: opsets,
    };
    assert(r@.opset_import =~= model_around(graph@, opset).opset_import);
    r
}

/// The names, types and shapes of a sequence of inputs.
pub open spec fn slots(v: Seq<(&str, ElemType, Vec<i64>)>) -> Seq<(Seq<char>, ElemType, Seq<i64>)> {
    Seq::new(v.len(), |i: int| (v[i].0@, v[i].1, v[i].2@))
}

/// A model with one node: one operator, some inputs and one output.
pub open spec fn single_node(
    op_type: Seq<char>,
    inputs: Seq<(Seq<char>, ElemType, Seq<i64>)>,
    output: (Seq<char>, ElemType, Seq<i64>),
    opset: i64,
) -> ModelModel {
    model_around(
        GraphModel {
            node: seq![
                NodeModel {
                    input: Seq::new(inputs.len(), |i: int| inputs[i].0),
                    output: seq![output.0],
                    name: node_name(op_type),
                    op_type,
                    attribute: Seq::empty(),
                },
            ],
            name: "g"@,
            initializer: Seq::empty(),
            input: Seq::new(
                inputs.len(),
                |i: int| info_of(inputs[i].0, inputs[i].1, inputs[i].2),
            ),
            output: seq![info_of(output.0, output.1, output.2)],
        },
        opset,
    )
}

/// A model with one node: one operator, some inputs and one output.
pub fn single_node_model(
    op_type: &str,
    inputs: &[(&str, ElemType, Vec<i64>)],
    output: (&str, ElemType, Vec<i64>),
    opset: i64,
) -> (r: ModelProto)
    ensures
        r@ == single_node(op_type@, slots(inputs@), (output.0@, output.1, output.2@), opset),
{
    let ghost goal = single_node(op_type@, slots(inputs@), (output.0@, output.1, output.2@), opset);
    let mut names: Vec<String> = Vec::new();
    let mut infos: Vec<ValueInfoProto> = Vec::new();
    let mut i: usize = 0;
    while i < inputs.len()
        invariant
            i <= inputs.len(),
            names.len() == i,
            infos.len() == i,
            forall|k: int| 0 <= k < i ==> (#[trigger] names@[k])@ == inputs@[k].0@,
            forall|k: int|
                0 <= k < i ==> (#[trigger] infos@[k])@ == info_of(
                    inputs@[k].0@,
                    inputs@[k].1,
                    inputs@[k].2@,
                ),
        decreases inputs.len() - i,
    {
        names.push(inputs[i].0.to_owned());
        infos.push(value_info(inputs[i].0, inputs[i].1, &inputs[i].2));
        i += 1;
    }
    let mut name: String = lowercase(op_type);
    name.append("_0");
    let outputs: Vec<String> = vec![output.0.to_owned()];
    let node: NodeProto = NodeProto {
        input: names,
        output: outputs,
        name,
        op_type: op_type.to_owned(),
        attribute: Vec::new(),
    };
    assert(node@ =~= goal.graph.node[0]);
    let nodes: Vec<NodeProto> = vec![node];
    let results: Vec<ValueInfoProto> = vec![value_info(output.0, output.1, &output.2)];
    let graph: GraphProto = GraphProto {
        node: nodes,
        name: "g".to_owned(),
        initializer: Vec::new(),
        input: infos,
        output: results,
    };
    assert(graph@ =~= goal.graph);
    around(graph, opset)
}

/// `Add` over two single-precision tensors of one shape.
pub fn add_model(dims: &[i64], opset: i64) -> (r: ModelProto)
    ensures
        r@ == single_node(
            "Add"@,
            seq![("a"@, ElemType::F32, dims@), ("b"@, ElemType::F32, dims@)],
            ("c"@, ElemType::F32, dims@),
            opset,
        ),
{
    let inputs: Vec<(&str, ElemType, Vec<i64>)> = vec![
        ("a", ElemType::F32, extents_of(dims)),
        ("b", ElemType::F32, extents_of(dims)),
    ];
    assert(slots(inputs@) =~= seq![
        ("a"@, ElemType::F32, dims@),
        ("b"@, ElemType::F32, dims@),
    ]);
    single_node_model("Add", inputs.as_slice(), ("c", ElemType::F32, extents_of(dims)), opset)
}

fn extents_of(dims: &[i64]) -> (r: Vec<i64>)
    ensures
        r@ == dims@,
{
    let mut out: Vec<i64> = Vec::new();
    let mut i: usize = 0;
    assert(dims@.take(0) =~= Seq::empty());
    while i < dims.len()
        invariant
            i <= dims.len(),
            out@ == dims@.take(i as int),
        decreases dims.len() - i,
    {
        out.push(dims[i]);
        assert(dims@.take(i + 1) =~= dims@.take(i as int).push(dims@[i as int]));
        i += 1;
    }
    assert(dims@.take(dims@.len() as int) =~= dims@);
    out
}

// ---- the model of a case ----

/// The outputs after the first.
pub open spec fn further_outputs(op: OpKind) -> Seq<ValueInfoModel> {
    if op.family() == Family::DynamicQuantize {
        seq![
            info_of("out_scale"@, ElemType::F32, Seq::empty()),
            info_of("out_zero_point"@, ElemType::U8, Seq::empty()),
        ]
    } else {
        Seq::empty()
    }
}

/// The outputs of a case, which all leave the graph and are all compared.
pub open spec fn outputs_of(c: CaseModel) -> Seq<ValueInfoModel> {
    seq![info_of("out"@, output_elem(c), output_dims(c))] + further_outputs(c.op)
}

/// A constant inside the model: the input's bytes as they stand.
pub open spec fn constant_of(t: TensorModel) -> ConstantModel {
    ConstantModel {
        dims: t.dims,
        data_type: t.elem_type().wire_number(),
        name: t.name,
        raw_data: data_bytes(t.data),
    }
}

/// The model of a case: the node takes every input in order, those that are fed are declared with
/// type and shape, and the others are constants.
pub open spec fn model_of(c: CaseModel) -> ModelModel {
    let fed = c.inputs.filter(|t: TensorModel| t.initializer() == false);
    let kept = c.inputs.filter(|t: TensorModel| t.initializer() == true);
    model_around(
        GraphModel {
            node: seq![
                NodeModel {
                    input: Seq::new(c.inputs.len(), |i: int| c.inputs[i].name),
                    output: Seq::new(outputs_of(c).len(), |i: int| outputs_of(c)[i].name),
                    name: node_name(c.op.text()),
                    op_type: c.op.text(),
                    attribute: Seq::new(c.attrs.len(), |i: int| attribute_of(c.attrs[i])),
                },
            ],
            name: "g"@,
            initializer: Seq::new(kept.len(), |i: int| constant_of(kept[i])),
            input: Seq::new(
                fed.len(),
                |i: int| info_of(fed[i].name, fed[i].elem_type(), fed[i].dims),
            ),
            output: outputs_of(c),
        },
        c.opset,
    )
}

/// The model of a case. Whether the case is legal is not looked at.
pub fn build(case: &OnnxCase) -> (r: ModelProto)
    requires
        output_fits(case@),
    ensures
        r@ == model_of(case@),
{
    let ghost goal = model_of(case@);
    let mut names: Vec<String> = Vec::new();
    while names.len() < case.inputs.len()
        invariant
            names.len() <= case.inputs.len(),
            forall|k: int| 0 <= k < names.len() ==> (#[trigger] names@[k])@ == case@.inputs[k].name,
        decreases case.inputs.len() - names.len(),
    {
        let i: usize = names.len();
        assert(case@.inputs[i as int] == case.inputs@[i as int]@);
        names.push(case.inputs[i].name.as_str().to_owned());
    }
    let (elem, dims): (ElemType, Vec<i64>) = output_spec(case);
    let mut results: Vec<ValueInfoProto> = vec![value_info("out", elem, &dims)];
    let mut outputs: Vec<String> = vec!["out".to_owned()];
    let extra: Vec<(&'static str, ElemType, Vec<i64>)> = extra_outputs(case);
    let ghost more = further_outputs(case@.op);
    let mut k: usize = 0;
    proof {
        assert(more.len() == extra@.len());
        assert forall|i: int| 0 <= i < extra@.len() implies #[trigger] more[i] == info_of(
            extra@[i].0@,
            extra@[i].1,
            extra@[i].2@,
        ) by {
            assert(extra@[i].2@ =~= Seq::<i64>::empty());
        }
        assert(infos_model(results@) =~= seq![info_of("out"@, elem, dims@)] + more.take(0));
        assert(texts(outputs@) =~= seq!["out"@]);
    }
    while k < extra.len()
        invariant
            k <= extra.len(),
            more.len() == extra@.len(),
            forall|i: int|
                0 <= i < extra@.len() ==> #[trigger] more[i] == info_of(
                    extra@[i].0@,
                    extra@[i].1,
                    extra@[i].2@,
                ),
            infos_model(results@) == seq![info_of("out"@, elem, dims@)] + more.take(k as int),
            outputs.len() == k + 1,
            outputs@[0]@ == "out"@,
            forall|i: int| 0 <= i < k ==> (#[trigger] outputs@[i + 1])@ == more[i].name,
        decreases extra.len() - k,
    {
        let ghost before = results@;
        results.push(value_info(extra[k].0, extra[k].1, &extra[k].2));
        outputs.push(extra[k].0.to_owned());
        assert(more[k as int].name == extra@[k as int].0@);
        assert(infos_model(results@) =~= infos_model(before).push(more[k as int]));
        assert(more.take(k + 1) =~= more.take(k as int).push(more[k as int]));
        assert(infos_model(results@) =~= seq![info_of("out"@, elem, dims@)] + more.take(k + 1));
        k += 1;
    }
    assert(more.take(more.len() as int) =~= more);
    assert(infos_model(results@) == outputs_of(case@));
    assert forall|i: int| 0 <= i < outputs@.len() implies (#[trigger] texts(outputs@)[i])
        == outputs_of(case@)[i].name by {
        if i > 0 {
            assert(outputs@[i - 1 + 1]@ == more[i - 1].name);
        }
    }
    assert(texts(outputs@) =~= Seq::new(
        outputs_of(case@).len(),
        |i: int| outputs_of(case@)[i].name,
    ));
    let mut name: String = lowercase(case.op.onnx_name());
    name.append("_0");
    let node: NodeProto = NodeProto {
        input: names,
        output: outputs,
        name,
        op_type: case.op.onnx_name().to_owned(),
        attribute: case.attrs.to_protos(),
    };
    assert(node@ =~= goal.graph.node[0]);
    let nodes: Vec<NodeProto> = vec![node];
    let fed: Vec<&TensorValue> = case.fed_inputs();
    let ghost fed_models = case@.inputs.filter(|t: TensorModel| t.initializer() == false);
    let mut infos: Vec<ValueInfoProto> = Vec::new();
    while infos.len() < fed.len()
        invariant
            infos.len() <= fed.len(),
            Seq::new(fed@.len(), |i: int| fed@[i]@) == fed_models,
            forall|k: int|
                0 <= k < infos.len() ==> (#[trigger] infos@[k])@ == info_of(
                    fed_models[k].name,
                    fed_models[k].elem_type(),
                    fed_models[k].dims,
                ),
        decreases fed.len() - infos.len(),
    {
        let i: usize = infos.len();
        assert(fed_models[i as int] == fed@[i as int]@);
        infos.push(value_info(fed[i].name.as_str(), fed[i].elem_type(), &fed[i].dims));
    }
    let kept: Vec<&TensorValue> = case.initializers();
    let ghost kept_models = case@.inputs.filter(|t: TensorModel| t.initializer() == true);
    let mut constants: Vec<TensorProto> = Vec::new();
    while constants.len() < kept.len()
        invariant
            constants.len() <= kept.len(),
            Seq::new(kept@.len(), |i: int| kept@[i]@) == kept_models,
            forall|k: int|
                0 <= k < constants.len() ==> (#[trigger] constants@[k])@ == constant_of(
                    kept_models[k],
                ),
        decreases kept.len() - constants.len(),
    {
        let i: usize = constants.len();
        assert(kept_models[i as int] == kept@[i as int]@);
        constants.push(
            TensorProto {
                dims: copy_dims(&kept[i].dims),
                data_type: kept[i].elem_type().wire(),
                name: kept[i].name.as_str().to_owned(),
                raw_data: kept[i].data.to_le_bytes(),
            },
        );
    }
    assert(Seq::new(fed@.len(), |i: int| fed@[i]@).len() == fed@.len());
    assert(Seq::new(kept@.len(), |i: int| kept@[i]@).len() == kept@.len());
    let graph: GraphProto = GraphProto {
        node: nodes,
        name: "g".to_owned(),
        initializer: constants,
        input: infos,
        output: results,
    };
    assert(graph@.initializer =~= goal.graph.initializer);
    assert(graph@.input =~= goal.graph.input);
    assert(graph@.output =~= goal.graph.output);
    assert(graph@.node =~= goal.graph.node);
    assert(graph@ == goal.graph);
    around(graph, case.opset)
}

/// The bytes of a case's model.
pub fn build_bytes(case: &OnnxCase) -> (r: Vec<u8>)
    requires
        output_fits(case@),
    ensures
        r@ == model_of(case@).bytes(),
{
    to_bytes(&build(case))
}

// ---- laws ----

proof fn lemma_starts_beyond(a: Seq<Field>, x: Seq<Field>, t: nat, tag: nat)
    requires
        all_numbered(a, t),
        t != tag,
        starts_beyond(x, tag),
    ensures
        starts_beyond(a + x, tag),
{
    if a.len() > 0 {
        assert((a + x)[0] == a[0]);
    } else {
        assert(a + x =~= x);
    }
}

proof fn lemma_text_list(tag: nat, a: Seq<Seq<char>>, b: Seq<Seq<char>>)
    requires
        text_fields(tag, a) == text_fields(tag, b),
    ensures
        a == b,
{
    let s = text_fields(tag, a);
    let t = text_fields(tag, b);
    assert(s.len() == a.len() && t.len() == b.len());
    assert forall|i: int| 0 <= i < a.len() implies a[i] == b[i] by {
        assert(s[i] == t[i]);
        lemma_text_is_told_apart(a[i], b[i]);
    }
    assert(a =~= b);
}

proof fn lemma_signed_list(tag: nat, a: Seq<i64>, b: Seq<i64>)
    requires
        signed_fields(tag, a) == signed_fields(tag, b),
    ensures
        a == b,
{
    let s = signed_fields(tag, a);
    let t = signed_fields(tag, b);
    assert(s.len() == a.len() && t.len() == b.len());
    assert forall|i: int| 0 <= i < a.len() implies a[i] == b[i] by {
        assert(s[i] == t[i]);
        lemma_signed_is_told_apart(a[i], b[i]);
    }
    assert(a =~= b);
}

proof fn lemma_message_list(tag: nat, a: Seq<Seq<u8>>, b: Seq<Seq<u8>>)
    requires
        message_fields(tag, a) == message_fields(tag, b),
    ensures
        a == b,
{
    let s = message_fields(tag, a);
    let t = message_fields(tag, b);
    assert(s.len() == a.len() && t.len() == b.len());
    assert forall|i: int| 0 <= i < a.len() implies a[i] == b[i] by {
        assert(s[i] == t[i]);
    }
    assert(a =~= b);
}

proof fn lemma_one_text(tag: nat, a: Seq<char>, b: Seq<char>)
    requires
        seq![text_field(tag, a)] == seq![text_field(tag, b)],
    ensures
        a == b,
{
    assert(seq![text_field(tag, a)][0] == seq![text_field(tag, b)][0]);
    lemma_text_is_told_apart(a, b);
}

proof fn lemma_one_signed(tag: nat, a: i64, b: i64)
    requires
        seq![signed_field(tag, a as int)] == seq![signed_field(tag, b as int)],
    ensures
        a == b,
{
    assert(seq![signed_field(tag, a as int)][0] == seq![signed_field(tag, b as int)][0]);
    lemma_signed_is_told_apart(a, b);
}

proof fn lemma_one_bytes(tag: nat, a: Seq<u8>, b: Seq<u8>)
    requires
        seq![Field::Bytes { tag, bytes: a }] == seq![Field::Bytes { tag, bytes: b }],
    ensures
        a == b,
{
    assert(seq![Field::Bytes { tag, bytes: a }][0] == seq![Field::Bytes { tag, bytes: b }][0]);
}

/// Runs of fields with the numbers of an attribute are told apart.
proof fn lemma_attribute_runs(
    a0: Seq<Field>,
    a1: Seq<Field>,
    a2: Seq<Field>,
    a3: Seq<Field>,
    a4: Seq<Field>,
    a5: Seq<Field>,
    b0: Seq<Field>,
    b1: Seq<Field>,
    b2: Seq<Field>,
    b3: Seq<Field>,
    b4: Seq<Field>,
    b5: Seq<Field>,
)
    requires
        a0 + a1 + a2 + a3 + a4 + a5 == b0 + b1 + b2 + b3 + b4 + b5,
        all_numbered(a0, 1),
        all_numbered(a1, 2),
        all_numbered(a2, 3),
        all_numbered(a3, 4),
        all_numbered(a4, 8),
        all_numbered(a5, 20),
        all_numbered(b0, 1),
        all_numbered(b1, 2),
        all_numbered(b2, 3),
        all_numbered(b3, 4),
        all_numbered(b4, 8),
        all_numbered(b5, 20),
    ensures
        a0 == b0,
        a1 == b1,
        a2 == b2,
        a3 == b3,
        a4 == b4,
        a5 == b5,
{
    let ar5 = a5;
    let ar4 = a4 + ar5;
    let ar3 = a3 + ar4;
    let ar2 = a2 + ar3;
    let ar1 = a1 + ar2;
    let ar0 = a0 + ar1;
    assert(a0 + a1 + a2 + a3 + a4 + a5 =~= ar0);
    let br5 = b5;
    let br4 = b4 + br5;
    let br3 = b3 + br4;
    let br2 = b2 + br3;
    let br1 = b1 + br2;
    let br0 = b0 + br1;
    assert(b0 + b1 + b2 + b3 + b4 + b5 =~= br0);
    assert(starts_beyond(ar5, 1));
    lemma_starts_beyond(a4, ar5, 8, 1);
    lemma_starts_beyond(a3, ar4, 4, 1);
    lemma_starts_beyond(a2, ar3, 3, 1);
    lemma_starts_beyond(a1, ar2, 2, 1);
    assert(starts_beyond(br5, 1));
    lemma_starts_beyond(b4, br5, 8, 1);
    lemma_starts_beyond(b3, br4, 4, 1);
    lemma_starts_beyond(b2, br3, 3, 1);
    lemma_starts_beyond(b1, br2, 2, 1);
    lemma_runs_are_told_apart(a0, ar1, b0, br1, 1);
    assert(starts_beyond(ar5, 2));
    lemma_starts_beyond(a4, ar5, 8, 2);
    lemma_starts_beyond(a3, ar4, 4, 2);
    lemma_starts_beyond(a2, ar3, 3, 2);
    assert(starts_beyond(br5, 2));
    lemma_starts_beyond(b4, br5, 8, 2);
    lemma_starts_beyond(b3, br4, 4, 2);
    lemma_starts_beyond(b2, br3, 3, 2);
    lemma_runs_are_told_apart(a1, ar2, b1, br2, 2);
    assert(starts_beyond(ar5, 3));
    lemma_starts_beyond(a4, ar5, 8, 3);
    lemma_starts_beyond(a3, ar4, 4, 3);
    assert(starts_beyond(br5, 3));
    lemma_starts_beyond(b4, br5, 8, 3);
    lemma_starts_beyond(b3, br4, 4, 3);
    lemma_runs_are_told_apart(a2, ar3, b2, br3, 3);
    assert(starts_beyond(ar5, 4));
    lemma_starts_beyond(a4, ar5, 8, 4);
    assert(starts_beyond(br5, 4));
    lemma_starts_beyond(b4, br5, 8, 4);
    lemma_runs_are_told_apart(a3, ar4, b3, br4, 4);
    assert(starts_beyond(ar5, 8));
    assert(starts_beyond(br5, 8));
    lemma_runs_are_told_apart(a4, ar5, b4, br5, 8);
}

proof fn lemma_attributes_are_told_apart(a: AttributeModel, b: AttributeModel)
    requires
        a.bytes() == b.bytes(),
    ensures
        a == b,
{
    lemma_fields_are_told_apart(a.fields(), b.fields());
    let a0: Seq<Field> = seq![text_field(1, a.name)];
    let a1: Seq<Field> = match a.f {
        Some(bits) => seq![Field::Word { tag: 2, bits }],
        None => Seq::empty(),
    };
    let a2: Seq<Field> = match a.i {
        Some(v) => seq![signed_field(3, v as int)],
        None => Seq::empty(),
    };
    let a3: Seq<Field> = match a.s {
        Some(bytes) => seq![Field::Bytes { tag: 4, bytes }],
        None => Seq::empty(),
    };
    let a4: Seq<Field> = signed_fields(8, a.ints);
    let a5: Seq<Field> = seq![signed_field(20, a.kind as int)];
    let b0: Seq<Field> = seq![text_field(1, b.name)];
    let b1: Seq<Field> = match b.f {
        Some(bits) => seq![Field::Word { tag: 2, bits }],
        None => Seq::empty(),
    };
    let b2: Seq<Field> = match b.i {
        Some(v) => seq![signed_field(3, v as int)],
        None => Seq::empty(),
    };
    let b3: Seq<Field> = match b.s {
        Some(bytes) => seq![Field::Bytes { tag: 4, bytes }],
        None => Seq::empty(),
    };
    let b4: Seq<Field> = signed_fields(8, b.ints);
    let b5: Seq<Field> = seq![signed_field(20, b.kind as int)];
    lemma_attribute_runs(a0, a1, a2, a3, a4, a5, b0, b1, b2, b3, b4, b5);
    lemma_one_text(1, a.name, b.name);
    assert(a1.len() == b1.len() && a2.len() == b2.len() && a3.len() == b3.len());
    if a.f is Some {
        assert(a1[0] == b1[0]);
    }
    if a.i is Some {
        lemma_one_signed(3, a.i->0, b.i->0);
    }
    if a.s is Some {
        assert(a3[0] == b3[0]);
    }
    lemma_signed_list(8, a.ints, b.ints);
    lemma_one_signed(20, a.kind as i64, b.kind as i64);
}

proof fn lemma_constants_are_told_apart(a: ConstantModel, b: ConstantModel)
    requires
        a.bytes() == b.bytes(),
    ensures
        a == b,
{
    lemma_fields_are_told_apart(a.fields(), b.fields());
    let a0: Seq<Field> = signed_fields(1, a.dims);
    let a1: Seq<Field> = seq![signed_field(2, a.data_type as int)];
    let a2: Seq<Field> = seq![text_field(8, a.name)];
    let a3: Seq<Field> = seq![Field::Bytes { tag: 9, bytes: a.raw_data }];
    let ar3: Seq<Field> = a3;
    let ar2: Seq<Field> = a2 + ar3;
    let ar1: Seq<Field> = a1 + ar2;
    let ar0: Seq<Field> = a0 + ar1;
    assert(a.fields() =~= ar0);
    let b0: Seq<Field> = signed_fields(1, b.dims);
    let b1: Seq<Field> = seq![signed_field(2, b.data_type as int)];
    let b2: Seq<Field> = seq![text_field(8, b.name)];
    let b3: Seq<Field> = seq![Field::Bytes { tag: 9, bytes: b.raw_data }];
    let br3: Seq<Field> = b3;
    let br2: Seq<Field> = b2 + br3;
    let br1: Seq<Field> = b1 + br2;
    let br0: Seq<Field> = b0 + br1;
    assert(b.fields() =~= br0);
    assert(starts_beyond(ar3, 1));
    lemma_starts_beyond(a2, ar3, 8, 1);
    lemma_starts_beyond(a1, ar2, 2, 1);
    assert(starts_beyond(br3, 1));
    lemma_starts_beyond(b2, br3, 8, 1);
    lemma_starts_beyond(b1, br2, 2, 1);
    lemma_runs_are_told_apart(a0, ar1, b0, br1, 1);
    assert(starts_beyond(ar3, 2));
    lemma_starts_beyond(a2, ar3, 8, 2);
    assert(starts_beyond(br3, 2));
    lemma_starts_beyond(b2, br3, 8, 2);
    lemma_runs_are_told_apart(a1, ar2, b1, br2, 2);
    assert(starts_beyond(ar3, 8));
    assert(starts_beyond(br3, 8));
    lemma_runs_are_told_apart(a2, ar3, b2, br3, 8);
    lemma_signed_list(1, a.dims, b.dims);
    lemma_one_signed(2, a.data_type as i64, b.data_type as i64);
    lemma_one_text(8, a.name, b.name);
    lemma_one_bytes(9, a.raw_data, b.raw_data);
}

proof fn lemma_shapes_are_told_apart(a: Seq<i64>, b: Seq<i64>)
    requires
        shape_bytes(a) == shape_bytes(b),
    ensures
        a == b,
{
    let s = Seq::new(a.len(), |i: int| extent_bytes(a[i]));
    let t = Seq::new(b.len(), |i: int| extent_bytes(b[i]));
    lemma_fields_are_told_apart(message_fields(1, s), message_fields(1, t));
    lemma_message_list(1, s, t);
    assert(s.len() == a.len() && t.len() == b.len());
    assert forall|i: int| 0 <= i < a.len() implies a[i] == b[i] by {
        assert(s[i] == t[i]);
        lemma_fields_are_told_apart(
            seq![signed_field(1, a[i] as int)],
            seq![signed_field(1, b[i] as int)],
        );
        lemma_one_signed(1, a[i], b[i]);
    }
    assert(a =~= b);
}

proof fn lemma_infos_are_told_apart(a: ValueInfoModel, b: ValueInfoModel)
    requires
        a.bytes() == b.bytes(),
    ensures
        a == b,
{
    lemma_fields_are_told_apart(a.fields(), b.fields());
    assert(a.fields()[0] == b.fields()[0] && a.fields()[1] == b.fields()[1]);
    lemma_text_is_told_apart(a.name, b.name);
    let s = seq![Field::Bytes { tag: 1, bytes: a.tensor_type() }];
    let t = seq![Field::Bytes { tag: 1, bytes: b.tensor_type() }];
    lemma_fields_are_told_apart(s, t);
    lemma_one_bytes(1, a.tensor_type(), b.tensor_type());
    let x = seq![signed_field(1, a.elem_type as int)] + seq![
        Field::Bytes { tag: 2, bytes: shape_bytes(a.dims) },
    ];
    let y = seq![signed_field(1, b.elem_type as int)] + seq![
        Field::Bytes { tag: 2, bytes: shape_bytes(b.dims) },
    ];
    lemma_fields_are_told_apart(x, y);
    assert(x[0] == y[0] && x[1] == y[1]);
    lemma_signed_is_told_apart(a.elem_type as i64, b.elem_type as i64);
    lemma_shapes_are_told_apart(a.dims, b.dims);
}

proof fn lemma_nodes_are_told_apart(a: NodeModel, b: NodeModel)
    requires
        a.bytes() == b.bytes(),
    ensures
        a == b,
{
    lemma_fields_are_told_apart(a.fields(), b.fields());
    let a0: Seq<Field> = text_fields(1, a.input);
    let a1: Seq<Field> = text_fields(2, a.output);
    let a2: Seq<Field> = seq![text_field(3, a.name)];
    let a3: Seq<Field> = seq![text_field(4, a.op_type)];
    let a4: Seq<Field> = message_fields(
        5,
        Seq::new(a.attribute.len(), |i: int| a.attribute[i].bytes()),
    );
    let ar4: Seq<Field> = a4;
    let ar3: Seq<Field> = a3 + ar4;
    let ar2: Seq<Field> = a2 + ar3;
    let ar1: Seq<Field> = a1 + ar2;
    let ar0: Seq<Field> = a0 + ar1;
    assert(a.fields() =~= ar0);
    let b0: Seq<Field> = text_fields(1, b.input);
    let b1: Seq<Field> = text_fields(2, b.output);
    let b2: Seq<Field> = seq![text_field(3, b.name)];
    let b3: Seq<Field> = seq![text_field(4, b.op_type)];
    let b4: Seq<Field> = message_fields(
        5,
        Seq::new(b.attribute.len(), |i: int| b.attribute[i].bytes()),
    );
    let br4: Seq<Field> = b4;
    let br3: Seq<Field> = b3 + br4;
    let br2: Seq<Field> = b2 + br3;
    let br1: Seq<Field> = b1 + br2;
    let br0: Seq<Field> = b0 + br1;
    assert(b.fields() =~= br0);
    assert(starts_beyond(ar4, 1));
    lemma_starts_beyond(a3, ar4, 4, 1);
    lemma_starts_beyond(a2, ar3, 3, 1);
    lemma_starts_beyond(a1, ar2, 2, 1);
    assert(starts_beyond(br4, 1));
    lemma_starts_beyond(b3, br4, 4, 1);
    lemma_starts_beyond(b2, br3, 3, 1);
    lemma_starts_beyond(b1, br2, 2, 1);
    lemma_runs_are_told_apart(a0, ar1, b0, br1, 1);
    assert(starts_beyond(ar4, 2));
    lemma_starts_beyond(a3, ar4, 4, 2);
    lemma_starts_beyond(a2, ar3, 3, 2);
    assert(starts_beyond(br4, 2));
    lemma_starts_beyond(b3, br4, 4, 2);
    lemma_starts_beyond(b2, br3, 3, 2);
    lemma_runs_are_told_apart(a1, ar2, b1, br2, 2);
    assert(starts_beyond(ar4, 3));
    lemma_starts_beyond(a3, ar4, 4, 3);
    assert(starts_beyond(br4, 3));
    lemma_starts_beyond(b3, br4, 4, 3);
    lemma_runs_are_told_apart(a2, ar3, b2, br3, 3);
    assert(starts_beyond(ar4, 4));
    assert(starts_beyond(br4, 4));
    lemma_runs_are_told_apart(a3, ar4, b3, br4, 4);
    lemma_text_list(1, a.input, b.input);
    lemma_text_list(2, a.output, b.output);
    lemma_one_text(3, a.name, b.name);
    lemma_one_text(4, a.op_type, b.op_type);
    lemma_message_list(
        5,
        Seq::new(a.attribute.len(), |i: int| a.attribute[i].bytes()),
        Seq::new(b.attribute.len(), |i: int| b.attribute[i].bytes()),
    );
    let seen_attribute = Seq::new(a.attribute.len(), |i: int| a.attribute[i].bytes());
    let other_attribute = Seq::new(b.attribute.len(), |i: int| b.attribute[i].bytes());
    assert(seen_attribute.len() == a.attribute.len() && other_attribute.len() == b.attribute.len());
    assert forall|i: int| 0 <= i < a.attribute.len() implies a.attribute[i] == b.attribute[i] by {
        assert(seen_attribute[i] == other_attribute[i]);
        lemma_attributes_are_told_apart(a.attribute[i], b.attribute[i]);
    }
    assert(a.attribute =~= b.attribute);
}

/// Runs of fields with the numbers of a graph are told apart.
proof fn lemma_graph_runs(
    a0: Seq<Field>,
    a1: Seq<Field>,
    a2: Seq<Field>,
    a3: Seq<Field>,
    a4: Seq<Field>,
    b0: Seq<Field>,
    b1: Seq<Field>,
    b2: Seq<Field>,
    b3: Seq<Field>,
    b4: Seq<Field>,
)
    requires
        a0 + a1 + a2 + a3 + a4 == b0 + b1 + b2 + b3 + b4,
        all_numbered(a0, 1),
        all_numbered(a1, 2),
        all_numbered(a2, 5),
        all_numbered(a3, 11),
        all_numbered(a4, 12),
        all_numbered(b0, 1),
        all_numbered(b1, 2),
        all_numbered(b2, 5),
        all_numbered(b3, 11),
        all_numbered(b4, 12),
    ensures
        a0 == b0,
        a1 == b1,
        a2 == b2,
        a3 == b3,
        a4 == b4,
{
    let ar4 = a4;
    let ar3 = a3 + ar4;
    let ar2 = a2 + ar3;
    let ar1 = a1 + ar2;
    let ar0 = a0 + ar1;
    assert(a0 + a1 + a2 + a3 + a4 =~= ar0);
    let br4 = b4;
    let br3 = b3 + br4;
    let br2 = b2 + br3;
    let br1 = b1 + br2;
    let br0 = b0 + br1;
    assert(b0 + b1 + b2 + b3 + b4 =~= br0);
    assert(starts_beyond(ar4, 1));
    lemma_starts_beyond(a3, ar4, 11, 1);
    lemma_starts_beyond(a2, ar3, 5, 1);
    lemma_starts_beyond(a1, ar2, 2, 1);
    assert(starts_beyond(br4, 1));
    lemma_starts_beyond(b3, br4, 11, 1);
    lemma_starts_beyond(b2, br3, 5, 1);
    lemma_starts_beyond(b1, br2, 2, 1);
    lemma_runs_are_told_apart(a0, ar1, b0, br1, 1);
    assert(starts_beyond(ar4, 2));
    lemma_starts_beyond(a3, ar4, 11, 2);
    lemma_starts_beyond(a2, ar3, 5, 2);
    assert(starts_beyond(br4, 2));
    lemma_starts_beyond(b3, br4, 11, 2);
    lemma_starts_beyond(b2, br3, 5, 2);
    lemma_runs_are_told_apart(a1, ar2, b1, br2, 2);
    assert(starts_beyond(ar4, 5));
    lemma_starts_beyond(a3, ar4, 11, 5);
    assert(starts_beyond(br4, 5));
    lemma_starts_beyond(b3, br4, 11, 5);
    lemma_runs_are_told_apart(a2, ar3, b2, br3, 5);
    assert(starts_beyond(ar4, 11));
    assert(starts_beyond(br4, 11));
    lemma_runs_are_told_apart(a3, ar4, b3, br4, 11);
}

proof fn lemma_node_lists(tag: nat, a: Seq<NodeModel>, b: Seq<NodeModel>)
    requires
        message_fields(tag, Seq::new(a.len(), |i: int| a[i].bytes())) == message_fields(
            tag,
            Seq::new(b.len(), |i: int| b[i].bytes()),
        ),
    ensures
        a == b,
{
    let seen = Seq::new(a.len(), |i: int| a[i].bytes());
    let other = Seq::new(b.len(), |i: int| b[i].bytes());
    lemma_message_list(tag, seen, other);
    assert(seen.len() == a.len() && other.len() == b.len());
    assert forall|i: int| 0 <= i < a.len() implies a[i] == b[i] by {
        assert(seen[i] == other[i]);
        lemma_nodes_are_told_apart(a[i], b[i]);
    }
    assert(a =~= b);
}

proof fn lemma_constant_lists(tag: nat, a: Seq<ConstantModel>, b: Seq<ConstantModel>)
    requires
        message_fields(tag, Seq::new(a.len(), |i: int| a[i].bytes())) == message_fields(
            tag,
            Seq::new(b.len(), |i: int| b[i].bytes()),
        ),
    ensures
        a == b,
{
    let seen = Seq::new(a.len(), |i: int| a[i].bytes());
    let other = Seq::new(b.len(), |i: int| b[i].bytes());
    lemma_message_list(tag, seen, other);
    assert(seen.len() == a.len() && other.len() == b.len());
    assert forall|i: int| 0 <= i < a.len() implies a[i] == b[i] by {
        assert(seen[i] == other[i]);
        lemma_constants_are_told_apart(a[i], b[i]);
    }
    assert(a =~= b);
}

proof fn lemma_info_lists(tag: nat, a: Seq<ValueInfoModel>, b: Seq<ValueInfoModel>)
    requires
        message_fields(tag, Seq::new(a.len(), |i: int| a[i].bytes())) == message_fields(
            tag,
            Seq::new(b.len(), |i: int| b[i].bytes()),
        ),
    ensures
        a == b,
{
    let seen = Seq::new(a.len(), |i: int| a[i].bytes());
    let other = Seq::new(b.len(), |i: int| b[i].bytes());
    lemma_message_list(tag, seen, other);
    assert(seen.len() == a.len() && other.len() == b.len());
    assert forall|i: int| 0 <= i < a.len() implies a[i] == b[i] by {
        assert(seen[i] == other[i]);
        lemma_infos_are_told_apart(a[i], b[i]);
    }
    assert(a =~= b);
}

proof fn lemma_graphs_are_told_apart(a: GraphModel, b: GraphModel)
    requires
        a.bytes() == b.bytes(),
    ensures
        a == b,
{
    lemma_fields_are_told_apart(a.fields(), b.fields());
    lemma_graph_runs(
        message_fields(1, Seq::new(a.node.len(), |i: int| a.node[i].bytes())),
        seq![text_field(2, a.name)],
        message_fields(5, Seq::new(a.initializer.len(), |i: int| a.initializer[i].bytes())),
        message_fields(11, Seq::new(a.input.len(), |i: int| a.input[i].bytes())),
        message_fields(12, Seq::new(a.output.len(), |i: int| a.output[i].bytes())),
        message_fields(1, Seq::new(b.node.len(), |i: int| b.node[i].bytes())),
        seq![text_field(2, b.name)],
        message_fields(5, Seq::new(b.initializer.len(), |i: int| b.initializer[i].bytes())),
        message_fields(11, Seq::new(b.input.len(), |i: int| b.input[i].bytes())),
        message_fields(12, Seq::new(b.output.len(), |i: int| b.output[i].bytes())),
    );
    lemma_node_lists(1, a.node, b.node);
    lemma_one_text(2, a.name, b.name);
    lemma_constant_lists(5, a.initializer, b.initializer);
    lemma_info_lists(11, a.input, b.input);
    lemma_info_lists(12, a.output, b.output);
}

proof fn lemma_opsets_are_told_apart(a: OpsetModel, b: OpsetModel)
    requires
        a.bytes() == b.bytes(),
    ensures
        a == b,
{
    lemma_fields_are_told_apart(a.fields(), b.fields());
    assert(a.fields()[0] == b.fields()[0] && a.fields()[1] == b.fields()[1]);
    lemma_text_is_told_apart(a.domain, b.domain);
    lemma_signed_is_told_apart(a.version, b.version);
}

/// A model is never written as nothing.
pub proof fn lemma_a_model_has_bytes(m: ModelModel)
    ensures
        m.bytes().len() > 0,
{
    let last = m.fields().last();
    assert(varint_bytes(last.number() * 8 + last.wire_type()).len() > 0);
}

/// The bytes of a model determine it: two models that are written alike are the same, so what a
/// runtime is handed leaves nothing of the model out.
pub proof fn lemma_models_are_told_apart(a: ModelModel, b: ModelModel)
    requires
        a.bytes() == b.bytes(),
    ensures
        a == b,
{
    lemma_fields_are_told_apart(a.fields(), b.fields());
    let a0: Seq<Field> = seq![signed_field(1, a.ir_version as int)];
    let a1: Seq<Field> = seq![text_field(2, a.producer_name)];
    let a2: Seq<Field> = seq![Field::Bytes { tag: 7, bytes: a.graph.bytes() }];
    let a3: Seq<Field> = message_fields(8, Seq::new(a.opset_import.len(), |i: int| a.opset_import[i].bytes()));
    let ar3: Seq<Field> = a3;
    let ar2: Seq<Field> = a2 + ar3;
    let ar1: Seq<Field> = a1 + ar2;
    let ar0: Seq<Field> = a0 + ar1;
    assert(a.fields() =~= ar0);
    let b0: Seq<Field> = seq![signed_field(1, b.ir_version as int)];
    let b1: Seq<Field> = seq![text_field(2, b.producer_name)];
    let b2: Seq<Field> = seq![Field::Bytes { tag: 7, bytes: b.graph.bytes() }];
    let b3: Seq<Field> = message_fields(8, Seq::new(b.opset_import.len(), |i: int| b.opset_import[i].bytes()));
    let br3: Seq<Field> = b3;
    let br2: Seq<Field> = b2 + br3;
    let br1: Seq<Field> = b1 + br2;
    let br0: Seq<Field> = b0 + br1;
    assert(b.fields() =~= br0);
    assert(starts_beyond(ar3, 1));
    lemma_starts_beyond(a2, ar3, 7, 1);
    lemma_starts_beyond(a1, ar2, 2, 1);
    assert(starts_beyond(br3, 1));
    lemma_starts_beyond(b2, br3, 7, 1);
    lemma_starts_beyond(b1, br2, 2, 1);
    lemma_runs_are_told_apart(a0, ar1, b0, br1, 1);
    assert(starts_beyond(ar3, 2));
    lemma_starts_beyond(a2, ar3, 7, 2);
    assert(starts_beyond(br3, 2));
    lemma_starts_beyond(b2, br3, 7, 2);
    lemma_runs_are_told_apart(a1, ar2, b1, br2, 2);
    assert(starts_beyond(ar3, 7));
    assert(starts_beyond(br3, 7));
    lemma_runs_are_told_apart(a2, ar3, b2, br3, 7);
    lemma_one_signed(1, a.ir_version, b.ir_version);
    lemma_one_text(2, a.producer_name, b.producer_name);
    lemma_one_bytes(7, a.graph.bytes(), b.graph.bytes());
    lemma_graphs_are_told_apart(a.graph, b.graph);
    lemma_message_list(
        8,
        Seq::new(a.opset_import.len(), |i: int| a.opset_import[i].bytes()),
        Seq::new(b.opset_import.len(), |i: int| b.opset_import[i].bytes()),
    );
    let seen_opset_import = Seq::new(a.opset_import.len(), |i: int| a.opset_import[i].bytes());
    let other_opset_import = Seq::new(b.opset_import.len(), |i: int| b.opset_import[i].bytes());
    assert(seen_opset_import.len() == a.opset_import.len() && other_opset_import.len() == b.opset_import.len());
    assert forall|i: int| 0 <= i < a.opset_import.len() implies a.opset_import[i] == b.opset_import[i] by {
        assert(seen_opset_import[i] == other_opset_import[i]);
        lemma_opsets_are_told_apart(a.opset_import[i], b.opset_import[i]);
    }
    assert(a.opset_import =~= b.opset_import);
}

/// The model that is written as the given bytes.
pub open spec fn read_back(bytes: Seq<u8>) -> ModelModel {
    choose|m: ModelModel| #[trigger] m.bytes() == bytes
}

/// Reading back what was written gives the model: there is no other model with these bytes.
pub proof fn lemma_a_written_model_is_read_back(m: ModelModel)
    ensures
        read_back(m.bytes()) == m,
{
    lemma_models_are_told_apart(read_back(m.bytes()), m);
}

/// The graph of a case declares exactly the inputs that are fed, in the order of the case, so that
/// a runtime that is fed by position is handed each tensor where the graph expects it.
pub proof fn lemma_declared_inputs_are_the_fed_ones(c: CaseModel, i: int)
    requires
        0 <= i < c.inputs.filter(|t: TensorModel| t.initializer() == false).len(),
    ensures
        model_of(c).graph.input.len() == c.inputs.filter(
            |t: TensorModel| t.initializer() == false,
        ).len(),
        model_of(c).graph.input[i].name == c.inputs.filter(
            |t: TensorModel| t.initializer() == false,
        )[i].name,
        model_of(c).graph.input[i].dims == c.inputs.filter(
            |t: TensorModel| t.initializer() == false,
        )[i].dims,
{
}

} // verus!
