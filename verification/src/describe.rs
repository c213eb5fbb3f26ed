//! A case written out in full, for a report that must stand on its own.
//!
//! Floating-point elements are written as bit patterns: a report that shows `NaN` or `0` does not
//! say which one it was.

use vstd::prelude::*;

use crate::attrs::{AttrModel, AttrValue};
use crate::case::{CaseModel, DataModel, InputRole, OnnxCase};
use crate::case::{TensorData, TensorModel, TensorValue};
use crate::text::{decimal, decimal_text, digits_text, hex, integer, integer_text, integers};
use crate::text::{integers_text, join, join_text, quoted, quoted_text, texts};

verus! {

/// How one element is written.
pub open spec fn element_text(d: DataModel, i: int) -> Seq<char> {
    match d {
        DataModel::F32(v) => "0x"@ + digits_text(v[i] as nat, 16),
        DataModel::F64(v) => "0x"@ + digits_text(v[i] as nat, 16),
        DataModel::I32(v) => integer_text(v[i] as int),
        DataModel::I64(v) => integer_text(v[i] as int),
        DataModel::Bool(v) => if v[i] { "true"@ } else { "false"@ },
        DataModel::I8(v) => integer_text(v[i] as int),
        DataModel::U8(v) => decimal_text(v[i] as nat),
    }
}

/// How a tensor's elements are written.
pub open spec fn data_text(d: DataModel) -> Seq<char> {
    d.elem_type().text() + "(["@ + join_text(
        Seq::new(d.len(), |i: int| element_text(d, i)),
        ", "@,
    ) + "])"@
}

pub open spec fn role_text(role: InputRole) -> Seq<char> {
    match role {
        InputRole::Data => "Data"@,
        InputRole::Initializer => "Initializer"@,
    }
}

/// How an input is written.
pub open spec fn input_text(t: TensorModel) -> Seq<char> {
    "TensorValue { name: "@ + quoted_text(t.name) + ", dims: "@ + integers_text(t.dims)
        + ", data: "@ + data_text(t.data) + ", role: "@ + role_text(t.role) + " }"@
}

/// How an attribute is written.
pub open spec fn attribute_text(entry: (Seq<char>, AttrModel)) -> Seq<char> {
    "("@ + quoted_text(entry.0) + ", "@ + match entry.1 {
        AttrModel::Int(v) => "Int("@ + integer_text(v as int) + ")"@,
        AttrModel::Ints(v) => "Ints("@ + integers_text(v) + ")"@,
        AttrModel::Float(b) => "Float(0x"@ + digits_text(b as nat, 16) + ")"@,
        AttrModel::Text(s) => "String("@ + quoted_text(s) + ")"@,
    } + ")"@
}

/// How a case is written.
pub open spec fn case_text(c: CaseModel) -> Seq<char> {
    "OnnxCase { opset: "@ + integer_text(c.opset as int) + ", op: "@ + c.op.text() + ", inputs: ["@
        + join_text(Seq::new(c.inputs.len(), |i: int| input_text(c.inputs[i])), ", "@)
        + "], attrs: Attrs(["@ + join_text(
        Seq::new(c.attrs.len(), |i: int| attribute_text(c.attrs[i])),
        ", "@,
    ) + "]) }"@
}

fn write_element(d: &TensorData, i: usize) -> (r: String)
    requires
        i < d@.len(),
    ensures
        r@ == element_text(d@, i as int),
{
    match d {
        TensorData::F32(v) => {
            let mut out: String = "0x".to_owned();
            out.append(hex(v[i] as u64, 0).as_str());
            out
        },
        TensorData::F64(v) => {
            let mut out: String = "0x".to_owned();
            out.append(hex(v[i], 0).as_str());
            out
        },
        TensorData::I32(v) => integer(v[i] as i64),
        TensorData::I64(v) => integer(v[i]),
        TensorData::Bool(v) => if v[i] { "true".to_owned() } else { "false".to_owned() },
        TensorData::I8(v) => integer(v[i] as i64),
        TensorData::U8(v) => decimal(v[i] as u64),
    }
}

fn write_data(d: &TensorData) -> (r: String)
    ensures
        r@ == data_text(d@),
{
    let n: usize = d.len();
    let mut parts: Vec<String> = Vec::new();
    let mut i: usize = 0;
    while i < n
        invariant
            i <= n,
            n == d@.len(),
            parts.len() == i,
            forall|k: int| 0 <= k < i ==> (#[trigger] parts@[k])@ == element_text(d@, k),
        decreases n - i,
    {
        parts.push(write_element(d, i));
        i += 1;
    }
    assert(texts(parts@) =~= Seq::new(d@.len(), |i: int| element_text(d@, i)));
    let mut out: String = d.elem_type().name().to_owned();
    out.append("([");
    out.append(join(&parts, ", ").as_str());
    out.append("])");
    out
}

fn write_input(t: &TensorValue) -> (r: String)
    ensures
        r@ == input_text(t@),
{
    let mut out: String = "TensorValue { name: ".to_owned();
    out.append(quoted(t.name.as_str()).as_str());
    out.append(", dims: ");
    out.append(integers(&t.dims).as_str());
    out.append(", data: ");
    out.append(write_data(&t.data).as_str());
    out.append(", role: ");
    match t.role {
        InputRole::Data => {
            out.append("Data");
        },
        InputRole::Initializer => {
            out.append("Initializer");
        },
    }
    out.append(" }");
    out
}

fn write_attribute(name: &str, value: &AttrValue) -> (r: String)
    ensures
        r@ == attribute_text((name@, value@)),
{
    let mut inner: String = String::new();
    match value {
        AttrValue::Int(v) => {
            inner.append("Int(");
            inner.append(integer(*v).as_str());
        },
        AttrValue::Ints(v) => {
            inner.append("Ints(");
            inner.append(integers(v).as_str());
        },
        AttrValue::Float(b) => {
            inner.append("Float(0x");
            inner.append(hex(*b as u64, 0).as_str());
        },
        AttrValue::String(s) => {
            inner.append("String(");
            inner.append(quoted(s.as_str()).as_str());
        },
    }
    inner.append(")");
    let mut out: String = "(".to_owned();
    out.append(quoted(name).as_str());
    out.append(", ");
    out.append(inner.as_str());
    out.append(")");
    assert(out@ =~= attribute_text((name@, value@)));
    out
}

/// A case in one line.
pub fn describe_case(case: &OnnxCase) -> (r: String)
    ensures
        r@ == case_text(case@),
{
    let mut inputs: Vec<String> = Vec::new();
    let mut i: usize = 0;
    while i < case.inputs.len()
        invariant
            i <= case.inputs.len(),
            inputs.len() == i,
            forall|k: int| 0 <= k < i ==> (#[trigger] inputs@[k])@ == input_text(case@.inputs[k]),
        decreases case.inputs.len() - i,
    {
        inputs.push(write_input(&case.inputs[i]));
        i += 1;
    }
    assert(texts(inputs@) =~= Seq::new(
        case@.inputs.len(),
        |i: int| input_text(case@.inputs[i]),
    ));
    let n: usize = case.attrs.len();
    let mut attrs: Vec<String> = Vec::new();
    let mut j: usize = 0;
    while j < n
        invariant
            j <= n,
            n == case@.attrs.len(),
            attrs.len() == j,
            forall|k: int| 0 <= k < j ==> (#[trigger] attrs@[k])@ == attribute_text(case@.attrs[k]),
        decreases n - j,
    {
        let (name, value): (&str, &AttrValue) = case.attrs.at(j);
        attrs.push(write_attribute(name, value));
        j += 1;
    }
    assert(texts(attrs@) =~= Seq::new(
        case@.attrs.len(),
        |i: int| attribute_text(case@.attrs[i]),
    ));
    let mut out: String = "OnnxCase { opset: ".to_owned();
    out.append(integer(case.opset).as_str());
    out.append(", op: ");
    out.append(case.op.onnx_name());
    out.append(", inputs: [");
    out.append(join(&inputs, ", ").as_str());
    out.append("], attrs: Attrs([");
    out.append(join(&attrs, ", ").as_str());
    out.append("]) }");
    out
}

} // verus!
