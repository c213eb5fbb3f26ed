//! Operator attributes: named constants that belong to a node rather than flow into it.
//!
//! Attributes keep the order in which they were added, and a repeated name is kept rather than
//! collapsed: the validator is what reports it, and dropping one here would hide the mistake.

use vstd::prelude::*;

use crate::text::{hex, hex_text, integer, integer_text, integers, integers_text};
use crate::text::{join, join_text, quoted, quoted_text, same_text, texts};

verus! {

/// The value of one attribute.
#[derive(Debug, PartialEq, Eq)]
pub enum AttrValue {
    Int(i64),
    Ints(Vec<i64>),
    /// A single-precision value, as its bit pattern.
    Float(u32),
    String(String),
}

/// What an [`AttrValue`] holds.
#[verifier::ext_equal]
pub enum AttrModel {
    Int(i64),
    Ints(Seq<i64>),
    Float(u32),
    Text(Seq<char>),
}

impl View for AttrValue {
    type V = AttrModel;

    open spec fn view(&self) -> AttrModel {
        match self {
            AttrValue::Int(v) => AttrModel::Int(*v),
            AttrValue::Ints(v) => AttrModel::Ints(v@),
            AttrValue::Float(v) => AttrModel::Float(*v),
            AttrValue::String(v) => AttrModel::Text(v@),
        }
    }
}

impl Clone for AttrValue {
    fn clone(&self) -> (r: Self)
        ensures
            r@ == self@,
    {
        match self {
            AttrValue::Int(v) => AttrValue::Int(*v),
            AttrValue::Ints(v) => {
                let copy: Vec<i64> = v.clone();
                assert(copy@ =~= v@);
                AttrValue::Ints(copy)
            },
            AttrValue::Float(v) => AttrValue::Float(*v),
            AttrValue::String(v) => AttrValue::String(v.clone()),
        }
    }
}

impl AttrModel {
    /// The name of the kind of value.
    pub open spec fn kind(self) -> Seq<char> {
        match self {
            AttrModel::Int(_) => "int"@,
            AttrModel::Ints(_) => "ints"@,
            AttrModel::Float(_) => "float"@,
            AttrModel::Text(_) => "string"@,
        }
    }

    /// ONNX's number for the kind of value.
    pub open spec fn attribute_type(self) -> i32 {
        match self {
            AttrModel::Float(_) => 1,
            AttrModel::Int(_) => 2,
            AttrModel::Text(_) => 3,
            AttrModel::Ints(_) => 7,
        }
    }
}

impl AttrValue {
    /// The kind of value, for reports.
    pub fn kind(&self) -> (r: &'static str)
        ensures
            r@ == self@.kind(),
    {
        match self {
            AttrValue::Int(_) => "int",
            AttrValue::Ints(_) => "ints",
            AttrValue::Float(_) => "float",
            AttrValue::String(_) => "string",
        }
    }

    /// ONNX's number for the kind of value (`AttributeProto.AttributeType`).
    pub fn attribute_type(&self) -> (r: i32)
        ensures
            r == self@.attribute_type(),
    {
        match self {
            AttrValue::Float(_) => 1,
            AttrValue::Int(_) => 2,
            AttrValue::String(_) => 3,
            AttrValue::Ints(_) => 7,
        }
    }

    /// Whether two values are the same, bit for bit.
    pub fn same(&self, other: &AttrValue) -> (r: bool)
        ensures
            r == (self@ == other@),
    {
        match (self, other) {
            (AttrValue::Int(a), AttrValue::Int(b)) => *a == *b,
            (AttrValue::Ints(a), AttrValue::Ints(b)) => {
                let r: bool = *a == *b;
                assert(r ==> a@ =~= b@);
                r
            },
            (AttrValue::Float(a), AttrValue::Float(b)) => *a == *b,
            (AttrValue::String(a), AttrValue::String(b)) => same_text(a.as_str(), b.as_str()),
            _ => false,
        }
    }
}

/// The attributes of one node, in the order they were added.
#[derive(Debug, PartialEq, Eq)]
pub struct Attrs {
    entries: Vec<(String, AttrValue)>,
}

/// What a list of named values holds.
pub open spec fn entries_model(v: Seq<(String, AttrValue)>) -> Seq<(Seq<char>, AttrModel)> {
    Seq::new(v.len(), |i: int| (v[i].0@, v[i].1@))
}

impl View for Attrs {
    type V = Seq<(Seq<char>, AttrModel)>;

    closed spec fn view(&self) -> Seq<(Seq<char>, AttrModel)> {
        entries_model(self.entries@)
    }
}

/// The value of the first attribute with a given name.
pub open spec fn lookup(attrs: Seq<(Seq<char>, AttrModel)>, name: Seq<char>) -> Option<AttrModel>
    decreases attrs.len(),
{
    if attrs.len() == 0 {
        None
    } else if attrs[0].0 == name {
        Some(attrs[0].1)
    } else {
        lookup(attrs.skip(1), name)
    }
}

/// How one attribute is written in a report. `shown` is the decimal form of a floating-point
/// value; its bit pattern is written beside it.
pub open spec fn entry_text(entry: (Seq<char>, AttrModel), shown: Seq<char>) -> Seq<char> {
    entry.0 + "="@ + match entry.1 {
        AttrModel::Int(v) => integer_text(v as int),
        AttrModel::Ints(v) => integers_text(v),
        AttrModel::Float(b) => shown + "#"@ + hex_text(b as nat, 8),
        AttrModel::Text(s) => quoted_text(s),
    }
}

impl Clone for Attrs {
    fn clone(&self) -> (r: Self)
        ensures
            r@ == self@,
    {
        let mut entries: Vec<(String, AttrValue)> = Vec::new();
        let mut i: usize = 0;
        while i < self.entries.len()
            invariant
                i <= self.entries.len(),
                entries.len() == i,
                forall|k: int|
                    0 <= k < i ==> ((#[trigger] entries@[k]).0@, entries@[k].1@) == self@[k],
            decreases self.entries.len() - i,
        {
            entries.push((self.entries[i].0.clone(), self.entries[i].1.clone()));
            i += 1;
        }
        assert(entries_model(entries@) =~= self@);
        Attrs { entries }
    }
}

impl Default for Attrs {
    fn default() -> (r: Self)
        ensures
            r@.len() == 0,
    {
        Attrs { entries: Vec::new() }
    }
}

impl Attrs {
    /// No attributes.
    pub fn new() -> (r: Self)
        ensures
            r@ == Seq::<(Seq<char>, AttrModel)>::empty(),
    {
        let r: Attrs = Attrs { entries: Vec::new() };
        assert(r@ =~= Seq::empty());
        r
    }

    /// Add an attribute at the end.
    #[must_use]
    pub fn with(self, name: &str, value: AttrValue) -> (r: Self)
        ensures
            r@ == self@.push((name@, value@)),
    {
        let mut entries: Vec<(String, AttrValue)> = self.entries;
        entries.push((name.to_owned(), value));
        let r: Attrs = Attrs { entries };
        assert(r@ =~= self@.push((name@, value@)));
        r
    }

    #[must_use]
    pub fn with_int(self, name: &str, value: i64) -> (r: Self)
        ensures
            r@ == self@.push((name@, AttrModel::Int(value))),
    {
        self.with(name, AttrValue::Int(value))
    }

    #[must_use]
    pub fn ints(self, name: &str, values: Vec<i64>) -> (r: Self)
        ensures
            r@ == self@.push((name@, AttrModel::Ints(values@))),
    {
        self.with(name, AttrValue::Ints(values))
    }

    /// Add a floating-point attribute, given by its bit pattern.
    #[must_use]
    pub fn float(self, name: &str, value: u32) -> (r: Self)
        ensures
            r@ == self@.push((name@, AttrModel::Float(value))),
    {
        self.with(name, AttrValue::Float(value))
    }

    #[must_use]
    pub fn string(self, name: &str, value: &str) -> (r: Self)
        ensures
            r@ == self@.push((name@, AttrModel::Text(value@))),
    {
        self.with(name, AttrValue::String(value.to_owned()))
    }

    pub fn is_empty(&self) -> (r: bool)
        ensures
            r == (self@.len() == 0),
    {
        self.entries.len() == 0
    }

    pub fn len(&self) -> (r: usize)
        ensures
            r == self@.len(),
    {
        self.entries.len()
    }

    /// The first attribute with this name.
    pub fn get(&self, name: &str) -> (r: Option<&AttrValue>)
        ensures
            r is Some <==> lookup(self@, name@) is Some,
            r matches Some(v) ==> lookup(self@, name@) == Some(v@),
    {
        let mut i: usize = 0;
        assert(self@.skip(0) =~= self@);
        while i < self.entries.len()
            invariant
                i <= self.entries.len(),
                lookup(self@.skip(i as int), name@) == lookup(self@, name@),
            decreases self.entries.len() - i,
        {
            if same_text(self.entries[i].0.as_str(), name) {
                return Some(&self.entries[i].1);
            }
            assert(self@.skip(i as int).skip(1) =~= self@.skip(i + 1));
            i += 1;
        }
        None
    }

    /// The name and value at a position.
    pub fn at(&self, index: usize) -> (r: (&str, &AttrValue))
        requires
            index < self@.len(),
        ensures
            (r.0@, r.1@) == self@[index as int],
    {
        (self.entries[index].0.as_str(), &self.entries[index].1)
    }

    /// The names, in order.
    pub fn names(&self) -> (r: Vec<&str>)
        ensures
            r.len() == self@.len(),
            forall|i: int| 0 <= i < r.len() ==> (#[trigger] r@[i])@ == self@[i].0,
    {
        let mut out: Vec<&str> = Vec::new();
        let mut i: usize = 0;
        while i < self.entries.len()
            invariant
                i <= self.entries.len(),
                out.len() == i,
                forall|k: int| 0 <= k < i ==> (#[trigger] out@[k])@ == self@[k].0,
            decreases self.entries.len() - i,
        {
            out.push(self.entries[i].0.as_str());
            i += 1;
        }
        out
    }

    /// The names with their values, in order.
    pub fn iter(&self) -> (r: Vec<(&str, &AttrValue)>)
        ensures
            r.len() == self@.len(),
            forall|i: int| 0 <= i < r.len() ==> ((#[trigger] r@[i]).0@, r@[i].1@) == self@[i],
    {
        let mut out: Vec<(&str, &AttrValue)> = Vec::new();
        let mut i: usize = 0;
        while i < self.entries.len()
            invariant
                i <= self.entries.len(),
                out.len() == i,
                forall|k: int| 0 <= k < i ==> ((#[trigger] out@[k]).0@, out@[k].1@) == self@[k],
            decreases self.entries.len() - i,
        {
            out.push(self.at(i));
            i += 1;
        }
        out
    }

    /// Whether two lists hold the same names and values in the same order.
    pub fn same(&self, other: &Attrs) -> (r: bool)
        ensures
            r == (self@ == other@),
    {
        if self.entries.len() != other.entries.len() {
            return false;
        }
        let mut i: usize = 0;
        while i < self.entries.len()
            invariant
                i <= self.entries.len(),
                self@.len() == other@.len() == self.entries.len() == other.entries.len(),
                forall|k: int| 0 <= k < i ==> self@[k] == other@[k],
            decreases self.entries.len() - i,
        {
            if !same_text(self.entries[i].0.as_str(), other.entries[i].0.as_str())
                || !self.entries[i].1.same(&other.entries[i].1) {
                assert(self@[i as int] != other@[i as int]);
                return false;
            }
            i += 1;
        }
        assert(self@ =~= other@);
        true
    }

    /// One line for a report: `name=value` for each attribute, or `-` when there are none.
    ///
    /// `shown[i]` is the decimal form of the value at position `i` where that is a floating-point
    /// number, and is not read otherwise.
    pub fn describe(&self, shown: &Vec<String>) -> (r: String)
        requires
            shown.len() == self@.len(),
        ensures
            r@ == (if self@.len() == 0 {
                "-"@
            } else {
                join_text(Seq::new(self@.len(), |i: int| entry_text(self@[i], shown@[i]@)), " "@)
            }),
    {
        if self.entries.len() == 0 {
            return "-".to_owned();
        }
        let mut parts: Vec<String> = Vec::new();
        let mut i: usize = 0;
        while i < self.entries.len()
            invariant
                i <= self.entries.len(),
                self.entries.len() == self@.len(),
                shown.len() == self@.len(),
                parts.len() == i,
                forall|k: int|
                    0 <= k < i ==> (#[trigger] parts@[k])@ == entry_text(self@[k], shown@[k]@),
            decreases self.entries.len() - i,
        {
            let mut part: String = self.entries[i].0.clone();
            part.append("=");
            match &self.entries[i].1 {
                AttrValue::Int(v) => {
                    part.append(integer(*v).as_str());
                },
                AttrValue::Ints(v) => {
                    part.append(integers(v).as_str());
                },
                AttrValue::Float(b) => {
                    part.append(shown[i].as_str());
                    part.append("#");
                    part.append(hex(*b as u64, 8).as_str());
                },
                AttrValue::String(s) => {
                    part.append(quoted(s.as_str()).as_str());
                },
            }
            assert(part@ =~= entry_text(self@[i as int], shown@[i as int]@));
            parts.push(part);
            i += 1;
        }
        assert(texts(parts@) =~= Seq::new(
            self@.len(),
            |i: int| entry_text(self@[i], shown@[i]@),
        ));
        join(&parts, " ")
    }
}

} // verus!
