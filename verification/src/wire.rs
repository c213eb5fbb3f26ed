//! The wire format of messages: fields one after another, each a key and a value.
//!
//! A key holds the field's number and how its value is delimited. A number is written in groups of
//! seven bits, the low ones first, and everything else is bytes behind their length. What is
//! written can be read in one way only: [`lemma_fields_are_told_apart`].

use vstd::prelude::*;
use vstd::utf8::{encode_utf8, encode_utf8_decode_utf8};

use crate::bits::{le_bytes, lemma_le_bytes_len, lemma_le_round_trip, lemma_pow256, push_le};
use crate::bits::to_unsigned64;
use crate::text::texts;

verus! {

// ---- numbers ----

/// A number in groups of seven bits, the low ones first, each but the last marked as continued.
pub open spec fn varint_bytes(n: nat) -> Seq<u8>
    decreases n,
{
    if n < 128 {
        seq![n as u8]
    } else {
        seq![(128 + n % 128) as u8] + varint_bytes(n / 128)
    }
}

/// `prost::encoding::encode_varint` appends a number in groups of seven bits, the low ones first,
/// and marks each group but the last as continued.
#[verifier::external_body]
fn append_varint(value: u64, out: &mut Vec<u8>)
    ensures
        final(out)@ == old(out)@ + varint_bytes(value as nat),
{
    prost::encoding::encode_varint(value, out)
}

/// A signed number as it is written: in two's complement.
pub open spec fn unsigned(v: int) -> nat {
    if v < 0 {
        (v + 0x1_0000_0000_0000_0000) as nat
    } else {
        v as nat
    }
}

// ---- fields ----

/// One field of a message.
#[verifier::ext_equal]
pub enum Field {
    /// A number.
    Number { tag: nat, value: nat },
    /// Four bytes.
    Word { tag: nat, bits: u32 },
    /// Bytes behind their length: a text, raw bytes or a message.
    Bytes { tag: nat, bytes: Seq<u8> },
}

impl Field {
    /// The field's number.
    pub open spec fn number(self) -> nat {
        match self {
            Field::Number { tag, .. } => tag,
            Field::Word { tag, .. } => tag,
            Field::Bytes { tag, .. } => tag,
        }
    }

    /// How the value is delimited.
    pub open spec fn wire_type(self) -> nat {
        match self {
            Field::Number { .. } => 0,
            Field::Word { .. } => 5,
            Field::Bytes { .. } => 2,
        }
    }

    /// The value as it is written.
    pub open spec fn payload(self) -> Seq<u8> {
        match self {
            Field::Number { value, .. } => varint_bytes(value),
            Field::Word { bits, .. } => le_bytes(bits as nat, 4),
            Field::Bytes { bytes, .. } => varint_bytes(bytes.len()) + bytes,
        }
    }

    /// The field as it is written.
    pub open spec fn encoded(self) -> Seq<u8> {
        varint_bytes(self.number() * 8 + self.wire_type()) + self.payload()
    }
}

/// A message as it is written.
pub open spec fn message(fields: Seq<Field>) -> Seq<u8>
    decreases fields.len(),
{
    if fields.len() == 0 {
        Seq::empty()
    } else {
        message(fields.drop_last()) + fields.last().encoded()
    }
}

/// A text field.
pub open spec fn text_field(tag: nat, text: Seq<char>) -> Field {
    Field::Bytes { tag, bytes: encode_utf8(text) }
}

/// A number field that holds a signed number.
pub open spec fn signed_field(tag: nat, value: int) -> Field {
    Field::Number { tag, value: unsigned(value) }
}

/// A repeated text field.
pub open spec fn text_fields(tag: nat, values: Seq<Seq<char>>) -> Seq<Field> {
    Seq::new(values.len(), |i: int| text_field(tag, values[i]))
}

/// A repeated number field that holds signed numbers.
pub open spec fn signed_fields(tag: nat, values: Seq<i64>) -> Seq<Field> {
    Seq::new(values.len(), |i: int| signed_field(tag, values[i] as int))
}

/// A repeated field that holds messages.
pub open spec fn message_fields(tag: nat, values: Seq<Seq<u8>>) -> Seq<Field> {
    Seq::new(values.len(), |i: int| Field::Bytes { tag, bytes: values[i] })
}

/// The largest number of a field.
pub const MAX_FIELD: u32 = 0x1fff_ffff;

fn append_key(tag: u32, wire_type: u32, out: &mut Vec<u8>)
    requires
        tag <= MAX_FIELD,
        wire_type < 8,
    ensures
        final(out)@ == old(out)@ + varint_bytes((tag * 8 + wire_type) as nat),
{
    append_varint((tag * 8 + wire_type) as u64, out)
}

/// Appends a number field.
pub fn append_number(tag: u32, value: u64, out: &mut Vec<u8>)
    requires
        tag <= MAX_FIELD,
    ensures
        final(out)@ == old(out)@ + (Field::Number { tag: tag as nat, value: value as nat }).encoded(),
{
    append_key(tag, 0, out);
    append_varint(value, out);
    assert(out@ =~= old(out)@ + (Field::Number {
        tag: tag as nat,
        value: value as nat,
    }).encoded());
}

/// Appends a number field that holds a signed number.
pub fn append_signed(tag: u32, value: i64, out: &mut Vec<u8>)
    requires
        tag <= MAX_FIELD,
    ensures
        final(out)@ == old(out)@ + signed_field(tag as nat, value as int).encoded(),
{
    append_number(tag, to_unsigned64(value), out)
}

/// Appends a field of four bytes.
pub fn append_word(tag: u32, bits: u32, out: &mut Vec<u8>)
    requires
        tag <= MAX_FIELD,
    ensures
        final(out)@ == old(out)@ + (Field::Word { tag: tag as nat, bits }).encoded(),
{
    append_key(tag, 5, out);
    push_le(out, bits as u64, 4);
    assert(out@ =~= old(out)@ + (Field::Word { tag: tag as nat, bits }).encoded());
}

/// Appends a field of bytes behind their length.
pub fn append_bytes(tag: u32, bytes: &[u8], out: &mut Vec<u8>)
    requires
        tag <= MAX_FIELD,
    ensures
        final(out)@ == old(out)@ + (Field::Bytes { tag: tag as nat, bytes: bytes@ }).encoded(),
{
    append_key(tag, 2, out);
    append_varint(bytes.len() as u64, out);
    let ghost head = out@;
    let mut i: usize = 0;
    assert(bytes@.take(0) =~= Seq::empty());
    while i < bytes.len()
        invariant
            i <= bytes.len(),
            out@ == head + bytes@.take(i as int),
        decreases bytes.len() - i,
    {
        out.push(bytes[i]);
        assert(bytes@.take(i + 1) =~= bytes@.take(i as int).push(bytes@[i as int]));
        i += 1;
    }
    assert(bytes@.take(bytes@.len() as int) =~= bytes@);
    assert(out@ =~= old(out)@ + (Field::Bytes { tag: tag as nat, bytes: bytes@ }).encoded());
}

/// Appends a text field.
pub fn append_text(tag: u32, text: &str, out: &mut Vec<u8>)
    requires
        tag <= MAX_FIELD,
    ensures
        final(out)@ == old(out)@ + text_field(tag as nat, text@).encoded(),
{
    append_bytes(tag, text.as_bytes(), out)
}

/// Appends a repeated text field.
pub fn append_texts(tag: u32, values: &Vec<String>, out: &mut Vec<u8>)
    requires
        tag <= MAX_FIELD,
    ensures
        final(out)@ == old(out)@ + message(text_fields(tag as nat, texts(values@))),
{
    let ghost fields = text_fields(tag as nat, texts(values@));
    let mut i: usize = 0;
    assert(fields.take(0) =~= Seq::empty());
    assert(out@ =~= old(out)@ + message(fields.take(0)));
    while i < values.len()
        invariant
            i <= values.len(),
            tag <= MAX_FIELD,
            fields == text_fields(tag as nat, texts(values@)),
            out@ == old(out)@ + message(fields.take(i as int)),
        decreases values.len() - i,
    {
        append_text(tag, values[i].as_str(), out);
        proof {
            lemma_message_push(fields.take(i as int), fields[i as int]);
            assert(fields.take(i + 1) =~= fields.take(i as int).push(fields[i as int]));
            assert(out@ =~= old(out)@ + message(fields.take(i + 1)));
        }
        i += 1;
    }
    assert(fields.take(values@.len() as int) =~= fields);
}

/// Appends a repeated number field that holds signed numbers.
pub fn append_all_signed(tag: u32, values: &Vec<i64>, out: &mut Vec<u8>)
    requires
        tag <= MAX_FIELD,
    ensures
        final(out)@ == old(out)@ + message(signed_fields(tag as nat, values@)),
{
    let ghost fields = signed_fields(tag as nat, values@);
    let mut i: usize = 0;
    assert(fields.take(0) =~= Seq::empty());
    assert(out@ =~= old(out)@ + message(fields.take(0)));
    while i < values.len()
        invariant
            i <= values.len(),
            tag <= MAX_FIELD,
            fields == signed_fields(tag as nat, values@),
            out@ == old(out)@ + message(fields.take(i as int)),
        decreases values.len() - i,
    {
        append_signed(tag, values[i], out);
        proof {
            lemma_message_push(fields.take(i as int), fields[i as int]);
            assert(fields.take(i + 1) =~= fields.take(i as int).push(fields[i as int]));
            assert(out@ =~= old(out)@ + message(fields.take(i + 1)));
        }
        i += 1;
    }
    assert(fields.take(values@.len() as int) =~= fields);
}

/// Appends a repeated field that holds messages.
pub fn append_messages(tag: u32, values: &Vec<Vec<u8>>, out: &mut Vec<u8>)
    requires
        tag <= MAX_FIELD,
    ensures
        final(out)@ == old(out)@ + message(
            message_fields(tag as nat, Seq::new(values@.len(), |i: int| values@[i]@)),
        ),
{
    let ghost all = Seq::new(values@.len(), |i: int| values@[i]@);
    let ghost fields = message_fields(tag as nat, all);
    let mut i: usize = 0;
    assert(fields.take(0) =~= Seq::empty());
    assert(out@ =~= old(out)@ + message(fields.take(0)));
    while i < values.len()
        invariant
            i <= values.len(),
            tag <= MAX_FIELD,
            all == Seq::new(values@.len(), |i: int| values@[i]@),
            fields == message_fields(tag as nat, all),
            out@ == old(out)@ + message(fields.take(i as int)),
        decreases values.len() - i,
    {
        append_bytes(tag, values[i].as_slice(), out);
        proof {
            lemma_message_push(fields.take(i as int), fields[i as int]);
            assert(fields.take(i + 1) =~= fields.take(i as int).push(fields[i as int]));
            assert(out@ =~= old(out)@ + message(fields.take(i + 1)));
        }
        i += 1;
    }
    assert(fields.take(values@.len() as int) =~= fields);
}

/// A message that holds a single field.
pub proof fn lemma_message_one(f: Field)
    ensures
        message(seq![f]) == f.encoded(),
{
    assert(seq![f].drop_last() =~= Seq::empty());
    assert(message(Seq::<Field>::empty()) =~= Seq::empty());
    assert(message(seq![f]) =~= f.encoded());
}

/// Fields that follow others are written behind them.
pub proof fn lemma_message_concat(a: Seq<Field>, b: Seq<Field>)
    ensures
        message(a + b) == message(a) + message(b),
    decreases b.len(),
{
    if b.len() == 0 {
        assert(a + b =~= a);
        assert(message(a) + message(b) =~= message(a));
    } else {
        assert((a + b).drop_last() =~= a + b.drop_last());
        lemma_message_concat(a, b.drop_last());
        assert(message(a + b) =~= message(a) + message(b));
    }
}

/// A message with one more field.
pub proof fn lemma_message_push(fields: Seq<Field>, f: Field)
    ensures
        message(fields.push(f)) == message(fields) + f.encoded(),
{
    assert(fields.push(f).drop_last() =~= fields);
}

// ---- laws ----

/// A number can be read in one way only.
pub proof fn lemma_numbers_are_told_apart(a: nat, b: nat, x: Seq<u8>, y: Seq<u8>)
    requires
        varint_bytes(a) + x == varint_bytes(b) + y,
    ensures
        a == b,
        x == y,
    decreases a,
{
    let p = varint_bytes(a) + x;
    let q = varint_bytes(b) + y;
    assert(p[0] == q[0]);
    if a < 128 {
        assert(p[0] == a as u8);
        if b < 128 {
            assert(q[0] == b as u8);
            assert(x =~= p.skip(1));
            assert(y =~= q.skip(1));
        } else {
            assert(q[0] == (128 + b % 128) as u8);
        }
    } else {
        assert(p[0] == (128 + a % 128) as u8);
        if b < 128 {
            assert(q[0] == b as u8);
        } else {
            assert(q[0] == (128 + b % 128) as u8);
            assert(p.skip(1) =~= varint_bytes(a / 128) + x);
            assert(q.skip(1) =~= varint_bytes(b / 128) + y);
            lemma_numbers_are_told_apart(a / 128, b / 128, x, y);
        }
    }
}

/// A field can be read in one way only.
pub proof fn lemma_a_field_is_told_apart(f: Field, g: Field, x: Seq<u8>, y: Seq<u8>)
    requires
        f.encoded() + x == g.encoded() + y,
    ensures
        f == g,
        x == y,
{
    let key_f = f.number() * 8 + f.wire_type();
    let key_g = g.number() * 8 + g.wire_type();
    assert(f.encoded() + x =~= varint_bytes(key_f) + (f.payload() + x));
    assert(g.encoded() + y =~= varint_bytes(key_g) + (g.payload() + y));
    lemma_numbers_are_told_apart(key_f, key_g, f.payload() + x, g.payload() + y);
    assert(f.number() == g.number() && f.wire_type() == g.wire_type());
    match f {
        Field::Number { value, .. } => {
            lemma_numbers_are_told_apart(value, g->Number_value, x, y);
        },
        Field::Word { bits, .. } => {
            let other = g->bits;
            lemma_le_bytes_len(bits as nat, 4);
            lemma_le_bytes_len(other as nat, 4);
            let p = le_bytes(bits as nat, 4) + x;
            assert(p == le_bytes(other as nat, 4) + y);
            assert(le_bytes(bits as nat, 4) =~= p.take(4));
            assert(le_bytes(other as nat, 4) =~= (le_bytes(other as nat, 4) + y).take(4));
            assert(x =~= p.skip(4));
            assert(y =~= (le_bytes(other as nat, 4) + y).skip(4));
            lemma_pow256();
            lemma_le_round_trip(bits as nat, 4);
            lemma_le_round_trip(other as nat, 4);
        },
        Field::Bytes { bytes, .. } => {
            let other = g->Bytes_bytes;
            let n = bytes.len();
            assert(f.payload() + x =~= varint_bytes(n) + (bytes + x));
            assert(g.payload() + y =~= varint_bytes(other.len()) + (other + y));
            lemma_numbers_are_told_apart(n, other.len(), bytes + x, other + y);
            assert(bytes =~= (bytes + x).take(n as int));
            assert(other =~= (other + y).take(n as int));
            assert(x =~= (bytes + x).skip(n as int));
            assert(y =~= (other + y).skip(n as int));
        },
    }
}

/// A message that begins with a field.
proof fn lemma_message_front(fields: Seq<Field>)
    requires
        fields.len() > 0,
    ensures
        message(fields) == fields[0].encoded() + message(fields.skip(1)),
    decreases fields.len(),
{
    if fields.len() == 1 {
        assert(fields.drop_last() =~= Seq::empty());
        assert(fields.skip(1) =~= Seq::empty());
        assert(message(fields) =~= fields[0].encoded() + message(fields.skip(1)));
    } else {
        lemma_message_front(fields.drop_last());
        assert(fields.drop_last().skip(1) =~= fields.skip(1).drop_last());
        assert(message(fields) =~= fields[0].encoded() + message(fields.skip(1)));
    }
}

proof fn lemma_fields_are_not_empty(f: Field)
    ensures
        f.encoded().len() > 0,
{
    lemma_varint_is_not_empty(f.number() * 8 + f.wire_type());
}

proof fn lemma_varint_is_not_empty(n: nat)
    ensures
        varint_bytes(n).len() > 0,
{
}

/// A message can be read in one way only: two that are written alike hold the same fields.
pub proof fn lemma_fields_are_told_apart(a: Seq<Field>, b: Seq<Field>)
    requires
        message(a) == message(b),
    ensures
        a == b,
    decreases a.len(),
{
    if a.len() == 0 {
        if b.len() > 0 {
            lemma_message_front(b);
            lemma_fields_are_not_empty(b[0]);
        }
        assert(a =~= b);
    } else {
        lemma_message_front(a);
        lemma_fields_are_not_empty(a[0]);
        if b.len() > 0 {
            lemma_message_front(b);
            lemma_a_field_is_told_apart(a[0], b[0], message(a.skip(1)), message(b.skip(1)));
            lemma_fields_are_told_apart(a.skip(1), b.skip(1));
            assert(a =~= seq![a[0]] + a.skip(1));
            assert(b =~= seq![b[0]] + b.skip(1));
        } else {
            assert(message(b) =~= Seq::empty());
        }
    }
}

/// Whether every field of a sequence has a number.
pub open spec fn all_numbered(fields: Seq<Field>, tag: nat) -> bool {
    forall|i: int| 0 <= i < fields.len() ==> (#[trigger] fields[i]).number() == tag
}

/// Whether a sequence does not begin with a field of a number.
pub open spec fn starts_beyond(fields: Seq<Field>, tag: nat) -> bool {
    fields.len() == 0 || fields[0].number() != tag
}

/// Where the fields of one number come first, they are told apart from what follows.
pub proof fn lemma_runs_are_told_apart(
    a: Seq<Field>,
    x: Seq<Field>,
    b: Seq<Field>,
    y: Seq<Field>,
    tag: nat,
)
    requires
        a + x == b + y,
        all_numbered(a, tag),
        all_numbered(b, tag),
        starts_beyond(x, tag),
        starts_beyond(y, tag),
    ensures
        a == b,
        x == y,
{
    let s = a + x;
    let t = b + y;
    if a.len() < b.len() {
        assert(t[a.len() as int] == b[a.len() as int]);
        assert(s[a.len() as int] == x[0]);
    } else if b.len() < a.len() {
        assert(s[b.len() as int] == a[b.len() as int]);
        assert(t[b.len() as int] == y[0]);
    }
    assert(a =~= s.take(a.len() as int));
    assert(b =~= t.take(b.len() as int));
    assert(x =~= s.skip(a.len() as int));
    assert(y =~= t.skip(b.len() as int));
}

/// A signed number is recovered from how it is written.
pub proof fn lemma_signed_is_told_apart(a: i64, b: i64)
    requires
        unsigned(a as int) == unsigned(b as int),
    ensures
        a == b,
{
}

/// A text is recovered from its bytes.
pub proof fn lemma_text_is_told_apart(a: Seq<char>, b: Seq<char>)
    requires
        encode_utf8(a) == encode_utf8(b),
    ensures
        a == b,
{
    encode_utf8_decode_utf8(a);
    encode_utf8_decode_utf8(b);
}

} // verus!
