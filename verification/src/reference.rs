//! Talking to the reference implementation, which runs in a process of its own.
//!
//! A request holds a model and the tensors to run it on, a reply holds tensors or a message. Both
//! are binary: the bits of every number cross the boundary as they are, where a text would lose the
//! payload of a `NaN` and the sign of a zero. Starting the process and moving bytes is the business
//! of the program around the library.

use vstd::prelude::*;
use vstd::utf8::{decode_utf8, encode_utf8, encode_utf8_decode_utf8, encode_utf8_valid_utf8};
use vstd::utf8::valid_utf8;

use crate::bits::{le_bytes, le_value, lemma_le_bytes_len, lemma_le_round_trip};
use crate::bits::{lemma_le_value_bound, lemma_pow256, push_le, read_le, signed32, signed64};
use crate::bits::{to_signed32, to_signed64, to_unsigned64, unsigned64};
use crate::case::{data_bytes, data_of_bytes, lemma_bytes_round_trip, ElemType, InputRole};
use crate::case::{tensors_model, OnnxCase, TensorData, TensorModel, TensorValue};
use crate::model::{build_bytes, model_of};
use crate::ops::output_fits;
use crate::outcome::{OnnxOutcome, OutcomeModel};
use crate::runtimes::fed_of;
use crate::text::{integer, integer_text};

verus! {

/// The name of the reference implementation.
pub const REFERENCE_NAME: &'static str = "onnx.reference";

// ---- requests ----

/// Bytes behind their length, which is written in 32 bits.
pub open spec fn framed(bytes: Seq<u8>) -> Seq<u8> {
    le_bytes(bytes.len(), 4) + bytes
}

/// A shape's extents.
pub open spec fn extents(dims: Seq<i64>) -> Seq<u8>
    decreases dims.len(),
{
    if dims.len() == 0 {
        Seq::empty()
    } else {
        extents(dims.drop_last()) + le_bytes(unsigned64(dims.last()) as nat, 8)
    }
}

/// A tensor: its name, ONNX's number for its element type, its shape and its bytes.
pub open spec fn tensor_frame(t: TensorModel) -> Seq<u8> {
    framed(encode_utf8(t.name)) + le_bytes(t.elem_type().wire_number() as nat, 4) + le_bytes(
        t.dims.len(),
        4,
    ) + extents(t.dims) + framed(data_bytes(t.data))
}

/// Tensors one after another.
pub open spec fn tensor_frames(ts: Seq<TensorModel>) -> Seq<u8>
    decreases ts.len(),
{
    if ts.len() == 0 {
        Seq::empty()
    } else {
        tensor_frames(ts.drop_last()) + tensor_frame(ts.last())
    }
}

/// A request to run a model on some tensors.
pub open spec fn request(model: Seq<u8>, inputs: Seq<TensorModel>) -> Seq<u8> {
    framed(model) + le_bytes(inputs.len(), 4) + tensor_frames(inputs)
}

fn append(bytes: &[u8], out: &mut Vec<u8>)
    ensures
        final(out)@ == old(out)@ + bytes@,
{
    let mut i: usize = 0;
    assert(out@ =~= old(out)@ + bytes@.take(0));
    while i < bytes.len()
        invariant
            i <= bytes.len(),
            out@ == old(out)@ + bytes@.take(i as int),
        decreases bytes.len() - i,
    {
        out.push(bytes[i]);
        assert(bytes@.take(i + 1) =~= bytes@.take(i as int).push(bytes@[i as int]));
        assert(out@ =~= old(out)@ + bytes@.take(i + 1));
        i += 1;
    }
    assert(bytes@.take(bytes@.len() as int) =~= bytes@);
}

fn append_framed(bytes: &[u8], out: &mut Vec<u8>)
    ensures
        final(out)@ == old(out)@ + framed(bytes@),
{
    push_le(out, bytes.len() as u64, 4);
    append(bytes, out);
    assert(out@ =~= old(out)@ + framed(bytes@));
}

fn append_extents(dims: &Vec<i64>, out: &mut Vec<u8>)
    ensures
        final(out)@ == old(out)@ + extents(dims@),
{
    let mut i: usize = 0;
    assert(out@ =~= old(out)@ + extents(dims@.take(0)));
    while i < dims.len()
        invariant
            i <= dims.len(),
            out@ == old(out)@ + extents(dims@.take(i as int)),
        decreases dims.len() - i,
    {
        push_le(out, to_unsigned64(dims[i]), 8);
        assert(dims@.take(i + 1).drop_last() =~= dims@.take(i as int));
        assert(out@ =~= old(out)@ + extents(dims@.take(i + 1)));
        i += 1;
    }
    assert(dims@.take(dims@.len() as int) =~= dims@);
}

fn append_tensor(t: &TensorValue, out: &mut Vec<u8>)
    ensures
        final(out)@ == old(out)@ + tensor_frame(t@),
{
    append_framed(t.name.as_str().as_bytes(), out);
    let wire: i32 = t.elem_type().wire();
    assert(wire >= 0);
    push_le(out, wire as u64, 4);
    push_le(out, t.dims.len() as u64, 4);
    append_extents(&t.dims, out);
    let payload: Vec<u8> = t.data.to_le_bytes();
    append_framed(payload.as_slice(), out);
    assert(out@ =~= old(out)@ + tensor_frame(t@));
}

/// A request to run a model on some tensors.
pub fn request_bytes(model_bytes: &[u8], inputs: &Vec<TensorValue>) -> (r: Vec<u8>)
    ensures
        r@ == request(model_bytes@, tensors_model(inputs@)),
{
    let ghost all = tensors_model(inputs@);
    let mut out: Vec<u8> = Vec::new();
    append_framed(model_bytes, &mut out);
    push_le(&mut out, inputs.len() as u64, 4);
    let ghost head = out@;
    assert(head =~= framed(model_bytes@) + le_bytes(all.len(), 4));
    let mut i: usize = 0;
    assert(out@ =~= head + tensor_frames(all.take(0)));
    while i < inputs.len()
        invariant
            i <= inputs.len(),
            all == tensors_model(inputs@),
            out@ == head + tensor_frames(all.take(i as int)),
        decreases inputs.len() - i,
    {
        append_tensor(&inputs[i], &mut out);
        assert(all[i as int] == inputs@[i as int]@);
        assert(all.take(i + 1).drop_last() =~= all.take(i as int));
        assert(out@ =~= head + tensor_frames(all.take(i + 1)));
        i += 1;
    }
    assert(all.take(all.len() as int) =~= all);
    out
}

// ---- replies ----

/// What reading from bytes comes to: something, and where reading goes on; or how many bytes are
/// missing at least.
pub enum Read<A> {
    Got(A, int),
    Missing(nat),
}

/// A number of 32 bits.
pub open spec fn read_u32(b: Seq<u8>, at: int) -> Read<nat> {
    if at + 4 <= b.len() {
        Read::Got(le_value(b.subrange(at, at + 4)), at + 4)
    } else {
        Read::Missing((at + 4 - b.len()) as nat)
    }
}

/// Bytes behind their length.
pub open spec fn read_framed(b: Seq<u8>, at: int) -> Read<Seq<u8>> {
    match read_u32(b, at) {
        Read::Missing(n) => Read::Missing(n),
        Read::Got(n, p) => if p + n <= b.len() {
            Read::Got(b.subrange(p, p + n), p + n)
        } else {
            Read::Missing((p + n - b.len()) as nat)
        },
    }
}

/// Some extents.
pub open spec fn read_extents(b: Seq<u8>, at: int, count: nat) -> Read<Seq<i64>>
    decreases count,
{
    if count == 0 {
        Read::Got(Seq::empty(), at)
    } else {
        match read_extents(b, at, (count - 1) as nat) {
            Read::Missing(n) => Read::Missing(n),
            Read::Got(dims, p) => if p + 8 <= b.len() {
                Read::Got(dims.push(signed64(le_value(b.subrange(p, p + 8)))), p + 8)
            } else {
                Read::Missing((p + 8 - b.len()) as nat)
            },
        }
    }
}

/// The text that bytes stand for that are not UTF-8: what cannot be read is replaced.
pub uninterp spec fn repaired_text(bytes: Seq<u8>) -> Seq<char>;

/// The text that bytes stand for.
pub open spec fn text_of(bytes: Seq<u8>) -> Seq<char> {
    if valid_utf8(bytes) {
        decode_utf8(bytes)
    } else {
        repaired_text(bytes)
    }
}

/// `String::from_utf8_lossy`: bytes that are UTF-8 stand for their text, and of others the result
/// is a function of the bytes alone, named [`repaired_text`].
#[verifier::external_body]
fn lossy(bytes: &[u8]) -> (r: String)
    ensures
        valid_utf8(bytes@) ==> r@ == decode_utf8(bytes@),
        !valid_utf8(bytes@) ==> r@ == repaired_text(bytes@),
{
    String::from_utf8_lossy(bytes).into_owned()
}

/// A tensor, or the number of an element type that is not known.
pub open spec fn read_tensor(b: Seq<u8>, at: int) -> Read<Result<TensorModel, i32>> {
    match read_framed(b, at) {
        Read::Missing(n) => Read::Missing(n),
        Read::Got(name, p) => match read_u32(b, p) {
            Read::Missing(n) => Read::Missing(n),
            Read::Got(wire, q) => match ElemType::of_wire(signed32(wire)) {
                None => Read::Got(Err(signed32(wire)), q),
                Some(elem) => match read_u32(b, q) {
                    Read::Missing(n) => Read::Missing(n),
                    Read::Got(rank, s) => match read_extents(b, s, rank) {
                        Read::Missing(n) => Read::Missing(n),
                        Read::Got(dims, t) => match read_framed(b, t) {
                            Read::Missing(n) => Read::Missing(n),
                            Read::Got(payload, u) => Read::Got(
                                Ok(
                                    TensorModel {
                                        name: text_of(name),
                                        dims,
                                        data: data_of_bytes(elem, payload),
                                        role: InputRole::Data,
                                    },
                                ),
                                u,
                            ),
                        },
                    },
                },
            },
        },
    }
}

/// What is said where a reply holds an element type that is not known.
pub open spec fn unknown_type_text(wire: i32) -> Seq<char> {
    "the reference returned element type "@ + integer_text(wire as int)
        + ", which this adapter does not decode"@
}

/// Some tensors. One of a type that is not known ends the reading: to guess would turn a gap into a
/// made-up divergence.
pub open spec fn read_tensors(b: Seq<u8>, at: int, count: nat) -> Read<
    Result<Seq<TensorModel>, i32>,
>
    decreases count,
{
    if count == 0 {
        Read::Got(Ok(Seq::empty()), at)
    } else {
        match read_tensors(b, at, (count - 1) as nat) {
            Read::Missing(n) => Read::Missing(n),
            Read::Got(Err(wire), p) => Read::Got(Err(wire), p),
            Read::Got(Ok(front), p) => match read_tensor(b, p) {
                Read::Missing(n) => Read::Missing(n),
                Read::Got(Err(wire), q) => Read::Got(Err(wire), q),
                Read::Got(Ok(t), q) => Read::Got(Ok(front.push(t)), q),
            },
        }
    }
}

/// What a reply says: a status, and behind it a message or tensors.
pub open spec fn read_reply(b: Seq<u8>) -> Read<OutcomeModel> {
    if b.len() == 0 {
        Read::Missing(1)
    } else if b[0] == 1 {
        match read_framed(b, 1) {
            Read::Missing(n) => Read::Missing(n),
            Read::Got(message, p) => Read::Got(OutcomeModel::Rejected(text_of(message)), p),
        }
    } else {
        match read_u32(b, 1) {
            Read::Missing(n) => Read::Missing(n),
            Read::Got(count, p) => match read_tensors(b, p, count) {
                Read::Missing(n) => Read::Missing(n),
                Read::Got(Ok(ts), q) => Read::Got(OutcomeModel::Produced(ts), q),
                Read::Got(Err(wire), q) => Read::Got(
                    OutcomeModel::Rejected(unknown_type_text(wire)),
                    q,
                ),
            },
        }
    }
}

/// What the bytes of a reply that have arrived so far amount to.
#[derive(Debug)]
pub enum Reply {
    /// The reply is complete.
    Complete(OnnxOutcome),
    /// At least this many bytes are missing.
    Missing(u64),
}

fn take_u32(b: &[u8], at: usize) -> (r: Result<(u64, usize), u64>)
    requires
        at <= b.len(),
    ensures
        match r {
            Ok((n, p)) => read_u32(b@, at as int) == Read::Got(n as nat, p as int) && p <= b.len() && n
                < 0x1_0000_0000,
            Err(n) => read_u32(b@, at as int) == Read::<nat>::Missing(n as nat),
        },
{
    let left: usize = b.len() - at;
    if left < 4 {
        return Err((4 - left) as u64);
    }
    proof {
        lemma_le_value_bound(b@.subrange(at as int, at + 4));
        lemma_pow256();
    }
    Ok((read_le(b, at, 4), at + 4))
}

fn part(b: &[u8], from: usize, to: usize) -> (r: Vec<u8>)
    requires
        from <= to <= b.len(),
    ensures
        r@ == b@.subrange(from as int, to as int),
{
    let mut out: Vec<u8> = Vec::new();
    let mut i: usize = from;
    while i < to
        invariant
            from <= i <= to <= b.len(),
            out@ == b@.subrange(from as int, i as int),
        decreases to - i,
    {
        out.push(b[i]);
        assert(b@.subrange(from as int, i + 1) =~= b@.subrange(from as int, i as int).push(
            b@[i as int],
        ));
        i += 1;
    }
    out
}

fn take_framed(b: &[u8], at: usize) -> (r: Result<(Vec<u8>, usize), u64>)
    requires
        at <= b.len(),
    ensures
        match r {
            Ok((bytes, p)) => read_framed(b@, at as int) == Read::Got(bytes@, p as int) && p
                <= b.len(),
            Err(n) => read_framed(b@, at as int) == Read::<Seq<u8>>::Missing(n as nat),
        },
{
    match take_u32(b, at) {
        Err(n) => Err(n),
        Ok((n, p)) => {
            let left: usize = b.len() - p;
            if (left as u64) < n {
                Err(n - left as u64)
            } else {
                let end: usize = p + n as usize;
                Ok((part(b, p, end), end))
            }
        },
    }
}

fn take_extents(b: &[u8], at: usize, count: u64) -> (r: Result<(Vec<i64>, usize), u64>)
    requires
        at <= b.len(),
    ensures
        match r {
            Ok((dims, p)) => read_extents(b@, at as int, count as nat) == Read::Got(
                dims@,
                p as int,
            ) && p <= b.len(),
            Err(n) => read_extents(b@, at as int, count as nat) == Read::<Seq<i64>>::Missing(
                n as nat,
            ),
        },
{
    let mut dims: Vec<i64> = Vec::new();
    let mut p: usize = at;
    let mut i: u64 = 0;
    assert(dims@ =~= Seq::empty());
    while i < count
        invariant
            i <= count,
            p <= b.len(),
            read_extents(b@, at as int, i as nat) == Read::Got(dims@, p as int),
        decreases count - i,
    {
        let left: usize = b.len() - p;
        if left < 8 {
            proof {
                lemma_missing_extents(b@, at as int, (i + 1) as nat, count as nat);
            }
            return Err((8 - left) as u64);
        }
        let value: i64 = to_signed64(read_le(b, p, 8));
        dims.push(value);
        p += 8;
        i += 1;
    }
    Ok((dims, p))
}

proof fn lemma_missing_extents(b: Seq<u8>, at: int, n: nat, count: nat)
    requires
        n <= count,
        read_extents(b, at, n) is Missing,
    ensures
        read_extents(b, at, count) == read_extents(b, at, n),
    decreases count,
{
    if n < count {
        lemma_missing_extents(b, at, n, (count - 1) as nat);
    }
}

fn take_tensor(b: &[u8], at: usize) -> (r: Result<(Result<TensorValue, i32>, usize), u64>)
    requires
        at <= b.len(),
    ensures
        match r {
            Ok((Ok(t), p)) => read_tensor(b@, at as int) == Read::Got(
                Ok::<TensorModel, i32>(t@),
                p as int,
            ) && p <= b.len(),
            Ok((Err(wire), p)) => read_tensor(b@, at as int) == Read::Got(
                Err::<TensorModel, i32>(wire),
                p as int,
            ) && p <= b.len(),
            Err(n) => read_tensor(b@, at as int) == Read::<Result<TensorModel, i32>>::Missing(
                n as nat,
            ),
        },
{
    let (name, p): (Vec<u8>, usize) = match take_framed(b, at) {
        Err(n) => {
            return Err(n);
        },
        Ok(x) => x,
    };
    let (number, q): (u64, usize) = match take_u32(b, p) {
        Err(n) => {
            return Err(n);
        },
        Ok(x) => x,
    };
    let wire: i32 = to_signed32(number);
    let elem: ElemType = match ElemType::from_wire(wire) {
        None => {
            return Ok((Err(wire), q));
        },
        Some(elem) => elem,
    };
    let (rank, s): (u64, usize) = match take_u32(b, q) {
        Err(n) => {
            return Err(n);
        },
        Ok(x) => x,
    };
    let (dims, t): (Vec<i64>, usize) = match take_extents(b, s, rank) {
        Err(n) => {
            return Err(n);
        },
        Ok(x) => x,
    };
    let (payload, u): (Vec<u8>, usize) = match take_framed(b, t) {
        Err(n) => {
            return Err(n);
        },
        Ok(x) => x,
    };
    let label: String = lossy(name.as_slice());
    let data: TensorData = TensorData::from_le_bytes(elem, payload.as_slice());
    Ok((Ok(TensorValue::new(label.as_str(), dims, data)), u))
}

proof fn lemma_settled_tensors(b: Seq<u8>, at: int, n: nat, count: nat)
    requires
        n <= count,
        match read_tensors(b, at, n) {
            Read::Missing(_) => true,
            Read::Got(x, _) => x is Err,
        },
    ensures
        read_tensors(b, at, count) == read_tensors(b, at, n),
    decreases count,
{
    if n < count {
        lemma_settled_tensors(b, at, n, (count - 1) as nat);
    }
}

fn take_tensors(b: &[u8], at: usize, count: u64) -> (r: Result<
    (Result<Vec<TensorValue>, i32>, usize),
    u64,
>)
    requires
        at <= b.len(),
    ensures
        match r {
            Ok((Ok(ts), p)) => read_tensors(b@, at as int, count as nat) == Read::Got(
                Ok::<Seq<TensorModel>, i32>(tensors_model(ts@)),
                p as int,
            ),
            Ok((Err(wire), p)) => read_tensors(b@, at as int, count as nat) == Read::Got(
                Err::<Seq<TensorModel>, i32>(wire),
                p as int,
            ),
            Err(n) => read_tensors(b@, at as int, count as nat) == Read::<
                Result<Seq<TensorModel>, i32>,
            >::Missing(n as nat),
        },
{
    let mut out: Vec<TensorValue> = Vec::new();
    let mut p: usize = at;
    let mut i: u64 = 0;
    assert(tensors_model(out@) =~= Seq::empty());
    while i < count
        invariant
            i <= count,
            p <= b.len(),
            read_tensors(b@, at as int, i as nat) == Read::Got(
                Ok::<Seq<TensorModel>, i32>(tensors_model(out@)),
                p as int,
            ),
        decreases count - i,
    {
        let ghost before = out@;
        match take_tensor(b, p) {
            Err(n) => {
                proof {
                    lemma_settled_tensors(b@, at as int, (i + 1) as nat, count as nat);
                }
                return Err(n);
            },
            Ok((Err(wire), q)) => {
                proof {
                    lemma_settled_tensors(b@, at as int, (i + 1) as nat, count as nat);
                }
                return Ok((Err(wire), q));
            },
            Ok((Ok(t), q)) => {
                out.push(t);
                p = q;
                assert(tensors_model(out@) =~= tensors_model(before).push(t@));
            },
        }
        i += 1;
    }
    Ok((Ok(out), p))
}

/// What the bytes of a reply that have arrived so far amount to. Where bytes are missing, reading
/// that many more never reads past the reply's end.
pub fn reply(bytes: &[u8]) -> (r: Reply)
    ensures
        match r {
            Reply::Complete(outcome) => read_reply(bytes@) is Got && read_reply(bytes@)->Got_0
                == outcome@,
            Reply::Missing(n) => read_reply(bytes@) == Read::<OutcomeModel>::Missing(n as nat),
        },
{
    if bytes.len() == 0 {
        return Reply::Missing(1);
    }
    if bytes[0] == 1 {
        match take_framed(bytes, 1) {
            Err(n) => Reply::Missing(n),
            Ok((message, _)) => {
                let detail: String = lossy(message.as_slice());
                Reply::Complete(OnnxOutcome::Rejected { detail })
            },
        }
    } else {
        match take_u32(bytes, 1) {
            Err(n) => Reply::Missing(n),
            Ok((count, p)) => match take_tensors(bytes, p, count) {
                Err(n) => Reply::Missing(n),
                Ok((Ok(ts), _)) => Reply::Complete(OnnxOutcome::Produced(ts)),
                Ok((Err(wire), _)) => {
                    let mut detail: String = "the reference returned element type ".to_owned();
                    detail.append(integer(wire as i64).as_str());
                    detail.append(", which this adapter does not decode");
                    Reply::Complete(OnnxOutcome::Rejected { detail })
                },
            },
        }
    }
}

/// What is made of a reference that stopped answering. That is a failure of the harness and must
/// not pass in silence, so it is held against the reference.
pub fn worker_failed(message: &str) -> (r: OnnxOutcome)
    ensures
        r@ == OutcomeModel::Crashed("the reference worker failed: "@ + message@),
{
    let mut detail: String = "the reference worker failed: ".to_owned();
    detail.append(message);
    OnnxOutcome::Crashed { detail }
}

/// What the reference says about a case, given what came back from its worker.
pub open spec fn consulted(reply: Result<OnnxOutcome, String>) -> OutcomeModel {
    match reply {
        Ok(outcome) => outcome@,
        Err(message) => OutcomeModel::Crashed("the reference worker failed: "@ + message@),
    }
}

/// The inputs that a case feeds, in order.
fn fed_tensors(case: &OnnxCase) -> (r: Vec<TensorValue>)
    ensures
        tensors_model(r@) == fed_of(case@.inputs),
{
    let fed: Vec<&TensorValue> = case.fed_inputs();
    let ghost all = fed_of(case@.inputs);
    assert(Seq::new(fed@.len(), |i: int| fed@[i]@).len() == fed@.len());
    let mut out: Vec<TensorValue> = Vec::new();
    while out.len() < fed.len()
        invariant
            out.len() <= fed.len(),
            all.len() == fed.len(),
            Seq::new(fed@.len(), |i: int| fed@[i]@) == all,
            forall|k: int| 0 <= k < out.len() ==> (#[trigger] out@[k])@ == all[k],
        decreases fed.len() - out.len(),
    {
        let i: usize = out.len();
        assert(all[i as int] == fed@[i as int]@);
        out.push(fed[i].clone());
    }
    assert(tensors_model(out@) =~= all);
    out
}

/// Asks the reference about a case. `ask` is given the request, and gives the reply that was read or
/// says how the worker failed. The request holds the model and what the case feeds: a constant is in
/// the model already, and the reference refuses one that is fed again.
pub fn consult<F: Fn(&Vec<u8>) -> Result<OnnxOutcome, String>>(case: &OnnxCase, ask: F) -> (r:
    OnnxOutcome)
    requires
        output_fits(case@),
        forall|bytes: &Vec<u8>|
            bytes@ == request(model_of(case@).bytes(), fed_of(case@.inputs))
                ==> #[trigger] call_requires(ask, (bytes,)),
    ensures
        exists|bytes: Vec<u8>, reply: Result<OnnxOutcome, String>|
            bytes@ == request(model_of(case@).bytes(), fed_of(case@.inputs))
                && #[trigger] call_ensures(ask, (&bytes,), reply) && r@ == consulted(reply),
{
    let model: Vec<u8> = build_bytes(case);
    let bytes: Vec<u8> = request_bytes(model.as_slice(), &fed_tensors(case));
    let reply: Result<OnnxOutcome, String> = ask(&bytes);
    assert(call_ensures(ask, (&bytes,), reply));
    match reply {
        Ok(outcome) => outcome,
        Err(message) => worker_failed(message.as_str()),
    }
}

// ---- laws ----

proof fn lemma_u32_settles(b: Seq<u8>, c: Seq<u8>, at: int)
    requires
        0 <= at,
    ensures
        read_u32(b, at) is Got ==> read_u32(b + c, at) == read_u32(b, at) && at <= read_u32(
            b,
            at,
        )->Got_1 <= b.len(),
        read_u32(b, at) is Missing && read_u32(b + c, at) is Got ==> read_u32(b + c, at)->Got_1
            >= b.len() + read_u32(b, at)->Missing_0,
{
    if at + 4 <= b.len() {
        assert((b + c).subrange(at, at + 4) =~= b.subrange(at, at + 4));
    }
}

proof fn lemma_framed_settles(b: Seq<u8>, c: Seq<u8>, at: int)
    requires
        0 <= at,
    ensures
        read_framed(b, at) is Got ==> read_framed(b + c, at) == read_framed(b, at) && at
            <= read_framed(b, at)->Got_1 <= b.len(),
        read_framed(b, at) is Missing && read_framed(b + c, at) is Got ==> read_framed(
            b + c,
            at,
        )->Got_1 >= b.len() + read_framed(b, at)->Missing_0,
{
    lemma_u32_settles(b, c, at);
    if read_framed(b, at) is Got {
        let p = read_u32(b, at)->Got_1;
        let n = read_u32(b, at)->Got_0;
        assert((b + c).subrange(p, p + n) =~= b.subrange(p, p + n));
    }
}

proof fn lemma_extents_settle(b: Seq<u8>, c: Seq<u8>, at: int, count: nat)
    requires
        0 <= at <= b.len(),
    ensures
        read_extents(b, at, count) is Got ==> read_extents(b + c, at, count) == read_extents(
            b,
            at,
            count,
        ) && at <= read_extents(b, at, count)->Got_1 <= b.len(),
        read_extents(b, at, count) is Missing && read_extents(b + c, at, count) is Got
            ==> read_extents(b + c, at, count)->Got_1 >= b.len() + read_extents(
            b,
            at,
            count,
        )->Missing_0,
    decreases count,
{
    if count > 0 {
        lemma_extents_settle(b, c, at, (count - 1) as nat);
        if read_extents(b, at, (count - 1) as nat) is Got {
            let p = read_extents(b, at, (count - 1) as nat)->Got_1;
            if p + 8 <= b.len() {
                assert((b + c).subrange(p, p + 8) =~= b.subrange(p, p + 8));
            }
        }
    }
}

proof fn lemma_tensor_settles(b: Seq<u8>, c: Seq<u8>, at: int)
    requires
        0 <= at <= b.len(),
    ensures
        read_tensor(b, at) is Got ==> read_tensor(b + c, at) == read_tensor(b, at) && at
            <= read_tensor(b, at)->Got_1 <= b.len(),
        read_tensor(b, at) is Missing && read_tensor(b + c, at) is Got ==> read_tensor(
            b + c,
            at,
        )->Got_1 >= b.len() + read_tensor(b, at)->Missing_0,
{
    let whole = b + c;
    lemma_framed_settles(b, c, at);
    if read_tensor(whole, at) is Got {
        lemma_grows(whole, at);
    }
    if let Read::Got(_, p) = read_framed(b, at) {
        lemma_u32_settles(b, c, p);
        if let Read::Got(wire, q) = read_u32(b, p) {
            if ElemType::of_wire(signed32(wire)) is Some {
                lemma_u32_settles(b, c, q);
                if let Read::Got(rank, s) = read_u32(b, q) {
                    lemma_extents_settle(b, c, s, rank);
                    if let Read::Got(_, t) = read_extents(b, s, rank) {
                        lemma_framed_settles(b, c, t);
                    }
                }
            }
        }
    }
}

/// Each part of a tensor ends at or before the tensor's end.
proof fn lemma_grows(b: Seq<u8>, at: int)
    requires
        0 <= at <= b.len(),
        read_tensor(b, at) is Got,
    ensures
        ({
            let end = read_tensor(b, at)->Got_1;
            let p = read_framed(b, at)->Got_1;
            let wire = read_u32(b, p)->Got_0;
            let q = read_u32(b, p)->Got_1;
            let rank = read_u32(b, q)->Got_0;
            let s = read_u32(b, q)->Got_1;
            let t = read_extents(b, s, rank)->Got_1;
            &&& p <= q <= end <= b.len()
            &&& ElemType::of_wire(signed32(wire)) is Some ==> q <= s <= t <= end
        }),
{
    let none = Seq::<u8>::empty();
    lemma_framed_settles(b, none, at);
    let p = read_framed(b, at)->Got_1;
    lemma_u32_settles(b, none, p);
    let q = read_u32(b, p)->Got_1;
    if ElemType::of_wire(signed32(read_u32(b, p)->Got_0)) is Some {
        lemma_u32_settles(b, none, q);
        let s = read_u32(b, q)->Got_1;
        lemma_extents_settle(b, none, s, read_u32(b, q)->Got_0);
        lemma_framed_settles(b, none, read_extents(b, s, read_u32(b, q)->Got_0)->Got_1);
    }
}

proof fn lemma_tensors_settle(b: Seq<u8>, c: Seq<u8>, at: int, count: nat)
    requires
        0 <= at <= b.len(),
    ensures
        read_tensors(b, at, count) is Got ==> read_tensors(b + c, at, count) == read_tensors(
            b,
            at,
            count,
        ) && at <= read_tensors(b, at, count)->Got_1 <= b.len(),
        read_tensors(b, at, count) is Missing && read_tensors(b + c, at, count) is Got
            ==> read_tensors(b + c, at, count)->Got_1 >= b.len() + read_tensors(
            b,
            at,
            count,
        )->Missing_0,
    decreases count,
{
    let whole = b + c;
    if count > 0 {
        let fewer = (count - 1) as nat;
        lemma_tensors_settle(b, c, at, fewer);
        lemma_tensors_settle(whole, Seq::empty(), at, fewer);
        if let Read::Got(Ok(_), p) = read_tensors(b, at, fewer) {
            lemma_tensor_settles(b, c, p);
        }
        if let Read::Got(Ok(_), p) = read_tensors(whole, at, fewer) {
            lemma_tensor_settles(whole, Seq::empty(), p);
        }
    }
}

/// A reply that is complete stays what it is whatever follows it, and where bytes are missing a
/// complete reply is at least that much longer: who reads as many bytes as are missing reads the
/// reply whole and nothing behind it.
pub proof fn lemma_replies_are_read_whole(b: Seq<u8>, c: Seq<u8>)
    ensures
        read_reply(b) is Got ==> read_reply(b + c) == read_reply(b) && read_reply(b)->Got_1
            <= b.len(),
        read_reply(b) is Missing && read_reply(b + c) is Got ==> read_reply(b + c)->Got_1
            >= b.len() + read_reply(b)->Missing_0,
{
    let whole = b + c;
    if b.len() > 0 {
        assert(whole[0] == b[0]);
        if b[0] == 1 {
            lemma_framed_settles(b, c, 1);
        } else {
            lemma_u32_settles(b, c, 1);
            lemma_u32_settles(whole, Seq::empty(), 1);
            if let Read::Got(count, p) = read_u32(b, 1) {
                lemma_tensors_settle(b, c, p, count);
            }
            if let Read::Got(count, p) = read_u32(whole, 1) {
                lemma_tensors_settle(whole, Seq::empty(), p, count);
            }
        }
    } else if whole.len() > 0 && read_reply(whole) is Got {
        let none = Seq::<u8>::empty();
        if whole[0] == 1 {
            lemma_framed_settles(whole, none, 1);
        } else {
            lemma_u32_settles(whole, none, 1);
            if let Read::Got(count, p) = read_u32(whole, 1) {
                lemma_tensors_settle(whole, none, p, count);
            }
        }
    }
}

/// Whether a tensor's parts are short enough for their lengths to be written in 32 bits.
pub open spec fn sendable(t: TensorModel) -> bool {
    &&& encode_utf8(t.name).len() < 0x1_0000_0000
    &&& t.dims.len() < 0x1_0000_0000
    &&& data_bytes(t.data).len() < 0x1_0000_0000
    &&& t.role == InputRole::Data
}

proof fn lemma_u32_back(before: Seq<u8>, n: nat, after: Seq<u8>)
    requires
        n < 0x1_0000_0000,
    ensures
        read_u32(before + le_bytes(n, 4) + after, before.len() as int) == Read::Got(
            n,
            before.len() as int + 4,
        ),
{
    let b = before + le_bytes(n, 4) + after;
    lemma_le_bytes_len(n, 4);
    lemma_pow256();
    lemma_le_round_trip(n, 4);
    assert(b.subrange(before.len() as int, before.len() as int + 4) =~= le_bytes(n, 4));
}

pub proof fn lemma_framed_back(before: Seq<u8>, x: Seq<u8>, after: Seq<u8>)
    requires
        x.len() < 0x1_0000_0000,
    ensures
        read_framed(before + framed(x) + after, before.len() as int) == Read::Got(
            x,
            (before.len() + framed(x).len()) as int,
        ),
{
    let b = before + framed(x) + after;
    lemma_le_bytes_len(x.len(), 4);
    assert(b =~= before + le_bytes(x.len(), 4) + (x + after));
    lemma_u32_back(before, x.len(), x + after);
    let p = before.len() as int + 4;
    assert(b.subrange(p, p + x.len()) =~= x);
}

proof fn lemma_extents_len(dims: Seq<i64>)
    ensures
        extents(dims).len() == 8 * dims.len(),
    decreases dims.len(),
{
    if dims.len() > 0 {
        lemma_extents_len(dims.drop_last());
        lemma_le_bytes_len(unsigned64(dims.last()) as nat, 8);
    }
}

proof fn lemma_extents_back(before: Seq<u8>, dims: Seq<i64>, after: Seq<u8>)
    ensures
        read_extents(before + extents(dims) + after, before.len() as int, dims.len()) == Read::Got(
            dims,
            (before.len() + extents(dims).len()) as int,
        ),
    decreases dims.len(),
{
    lemma_extents_len(dims);
    if dims.len() > 0 {
        let front = dims.drop_last();
        let last = le_bytes(unsigned64(dims.last()) as nat, 8);
        let b = before + extents(dims) + after;
        lemma_extents_len(front);
        lemma_le_bytes_len(unsigned64(dims.last()) as nat, 8);
        assert(b =~= before + extents(front) + (last + after));
        lemma_extents_back(before, front, last + after);
        let p = (before.len() + extents(front).len()) as int;
        assert(b.subrange(p, p + 8) =~= last);
        lemma_pow256();
        lemma_le_round_trip(unsigned64(dims.last()) as nat, 8);
        assert(signed64(unsigned64(dims.last()) as nat) == dims.last());
        assert(front.push(dims.last()) =~= dims);
    } else {
        assert(dims =~= Seq::empty());
    }
}

/// Five pieces between two others, taken apart at each of them in turn.
proof fn lemma_pieces(
    before: Seq<u8>,
    p0: Seq<u8>,
    p1: Seq<u8>,
    p2: Seq<u8>,
    p3: Seq<u8>,
    p4: Seq<u8>,
    after: Seq<u8>,
)
    ensures
        ({
            let b = before + (p0 + p1 + p2 + p3 + p4) + after;
            &&& b == before + p0 + (p1 + p2 + p3 + p4 + after)
            &&& b == before + p0 + p1 + (p2 + p3 + p4 + after)
            &&& b == before + p0 + p1 + p2 + (p3 + p4 + after)
            &&& b == before + p0 + p1 + p2 + p3 + (p4 + after)
            &&& b == before + p0 + p1 + p2 + p3 + p4 + after
        }),
{
    let b = before + (p0 + p1 + p2 + p3 + p4) + after;
    assert(b =~= before + p0 + (p1 + p2 + p3 + p4 + after));
    assert(b =~= before + p0 + p1 + (p2 + p3 + p4 + after));
    assert(b =~= before + p0 + p1 + p2 + (p3 + p4 + after));
    assert(b =~= before + p0 + p1 + p2 + p3 + (p4 + after));
    assert(b =~= before + p0 + p1 + p2 + p3 + p4 + after);
}

/// A tensor whose parts are read one after another is read.
proof fn lemma_parts_make_a_tensor(
    b: Seq<u8>,
    at: int,
    t: TensorModel,
    p: int,
    q: int,
    s: int,
    d: int,
    end: int,
)
    requires
        t.role == InputRole::Data,
        read_framed(b, at) == Read::Got(encode_utf8(t.name), p),
        read_u32(b, p) == Read::Got(t.elem_type().wire_number() as nat, q),
        read_u32(b, q) == Read::Got(t.dims.len(), s),
        read_extents(b, s, t.dims.len()) == Read::Got(t.dims, d),
        read_framed(b, d) == Read::Got(data_bytes(t.data), end),
    ensures
        read_tensor(b, at) == Read::Got(Ok::<TensorModel, i32>(t), end),
{
    encode_utf8_valid_utf8(t.name);
    encode_utf8_decode_utf8(t.name);
    lemma_bytes_round_trip(t.data);
    assert(signed32(t.elem_type().wire_number() as nat) == t.elem_type().wire_number());
    assert(ElemType::of_wire(t.elem_type().wire_number()) == Some(t.elem_type()));
}

proof fn lemma_tensor_back(before: Seq<u8>, t: TensorModel, after: Seq<u8>)
    requires
        sendable(t),
    ensures
        read_tensor(before + tensor_frame(t) + after, before.len() as int) == Read::Got(
            Ok::<TensorModel, i32>(t),
            (before.len() + tensor_frame(t).len()) as int,
        ),
{
    let b = before + tensor_frame(t) + after;
    let name = framed(encode_utf8(t.name));
    let wire = t.elem_type().wire_number() as nat;
    let kind = le_bytes(wire, 4);
    let rank = le_bytes(t.dims.len(), 4);
    let shape = extents(t.dims);
    let data = framed(data_bytes(t.data));
    let b1 = before + name;
    let b2 = b1 + kind;
    let b3 = b2 + rank;
    let b4 = b3 + shape;
    lemma_le_bytes_len(wire, 4);
    lemma_le_bytes_len(t.dims.len(), 4);
    lemma_pieces(before, name, kind, rank, shape, data, after);
    assert(read_framed(b, before.len() as int) == Read::Got(
        encode_utf8(t.name),
        b1.len() as int,
    )) by {
        lemma_framed_back(before, encode_utf8(t.name), kind + rank + shape + data + after);
    }
    assert(read_u32(b, b1.len() as int) == Read::Got(wire, b2.len() as int)) by {
        lemma_u32_back(b1, wire, rank + shape + data + after);
    }
    assert(read_u32(b, b2.len() as int) == Read::Got(t.dims.len(), b3.len() as int)) by {
        lemma_u32_back(b2, t.dims.len(), shape + data + after);
    }
    assert(read_extents(b, b3.len() as int, t.dims.len()) == Read::Got(
        t.dims,
        b4.len() as int,
    )) by {
        lemma_extents_back(b3, t.dims, data + after);
    }
    assert(read_framed(b, b4.len() as int) == Read::Got(
        data_bytes(t.data),
        (b4.len() + data.len()) as int,
    )) by {
        lemma_framed_back(b4, data_bytes(t.data), after);
    }
    lemma_parts_make_a_tensor(
        b,
        before.len() as int,
        t,
        b1.len() as int,
        b2.len() as int,
        b3.len() as int,
        b4.len() as int,
        (b4.len() + data.len()) as int,
    );
}

proof fn lemma_tensors_back(before: Seq<u8>, ts: Seq<TensorModel>, after: Seq<u8>)
    requires
        forall|i: int| 0 <= i < ts.len() ==> sendable(#[trigger] ts[i]),
    ensures
        read_tensors(before + tensor_frames(ts) + after, before.len() as int, ts.len())
            == Read::Got(
            Ok::<Seq<TensorModel>, i32>(ts),
            (before.len() + tensor_frames(ts).len()) as int,
        ),
    decreases ts.len(),
{
    if ts.len() > 0 {
        let front = ts.drop_last();
        let last = tensor_frame(ts.last());
        let b = before + tensor_frames(ts) + after;
        assert forall|i: int| 0 <= i < front.len() implies sendable(#[trigger] front[i]) by {
            assert(ts[i] == front[i]);
        }
        assert(b =~= before + tensor_frames(front) + (last + after));
        lemma_tensors_back(before, front, last + after);
        let b1 = before + tensor_frames(front);
        assert(b =~= b1 + last + after);
        assert(sendable(ts[ts.len() - 1]));
        lemma_tensor_back(b1, ts.last(), after);
        assert(front.push(ts.last()) =~= ts);
    } else {
        assert(ts =~= Seq::empty());
    }
}

/// Tensors that are written in a reply as they are written in a request are read back unchanged, to
/// the bit: no payload of a `NaN` and no sign of a zero is lost at the boundary.
pub proof fn lemma_tensors_cross_unchanged(ts: Seq<TensorModel>)
    requires
        ts.len() < 0x1_0000_0000,
        forall|i: int| 0 <= i < ts.len() ==> sendable(#[trigger] ts[i]),
    ensures
        read_reply(seq![0u8] + le_bytes(ts.len(), 4) + tensor_frames(ts)) is Got,
        read_reply(seq![0u8] + le_bytes(ts.len(), 4) + tensor_frames(ts))->Got_0
            == OutcomeModel::Produced(ts),
{
    let b = seq![0u8] + le_bytes(ts.len(), 4) + tensor_frames(ts);
    let none = Seq::<u8>::empty();
    lemma_le_bytes_len(ts.len(), 4);
    assert(b =~= seq![0u8] + le_bytes(ts.len(), 4) + tensor_frames(ts));
    lemma_u32_back(seq![0u8], ts.len(), tensor_frames(ts));
    let head = seq![0u8] + le_bytes(ts.len(), 4);
    assert(b =~= head + tensor_frames(ts) + none);
    lemma_tensors_back(head, ts, none);
}

} // verus!
