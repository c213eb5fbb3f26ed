//! Bit patterns: little-endian bytes, two's complement, and what a floating-point pattern means.
//!
//! Tensors hold floating-point values as their IEEE 754 bit patterns. That is the form in which
//! they are compared and stored: a `NaN` keeps its payload and a zero keeps its sign.

use vstd::prelude::*;

verus! {

// ---- little-endian bytes ----

/// 256 to the power `k`.
pub open spec fn pow256(k: nat) -> nat
    decreases k,
{
    if k == 0 {
        1
    } else {
        256 * pow256((k - 1) as nat)
    }
}

/// The `width` low-order bytes of a number, least significant first.
pub open spec fn le_bytes(n: nat, width: nat) -> Seq<u8>
    decreases width,
{
    if width == 0 {
        Seq::empty()
    } else {
        seq![(n % 256) as u8] + le_bytes(n / 256, (width - 1) as nat)
    }
}

/// The number that a sequence of bytes stands for, least significant first.
pub open spec fn le_value(s: Seq<u8>) -> nat
    decreases s.len(),
{
    if s.len() == 0 {
        0
    } else {
        s[0] as nat + 256 * le_value(s.skip(1))
    }
}

pub proof fn lemma_le_bytes_len(n: nat, width: nat)
    ensures
        le_bytes(n, width).len() == width,
    decreases width,
{
    if width > 0 {
        lemma_le_bytes_len(n / 256, (width - 1) as nat);
    }
}

pub proof fn lemma_le_value_bound(s: Seq<u8>)
    ensures
        le_value(s) < pow256(s.len()),
    decreases s.len(),
{
    if s.len() > 0 {
        lemma_le_value_bound(s.skip(1));
    }
}

/// A number that fits in `width` bytes is what its bytes stand for.
pub proof fn lemma_le_round_trip(n: nat, width: nat)
    requires
        n < pow256(width),
    ensures
        le_value(le_bytes(n, width)) == n,
    decreases width,
{
    if width > 0 {
        lemma_le_round_trip(n / 256, (width - 1) as nat);
        assert(le_bytes(n, width).skip(1) =~= le_bytes(n / 256, (width - 1) as nat));
    }
}

pub proof fn lemma_pow256()
    ensures
        pow256(0) == 1,
        pow256(1) == 0x100,
        pow256(4) == 0x1_0000_0000,
        pow256(8) == 0x1_0000_0000_0000_0000,
{
    reveal_with_fuel(pow256, 9);
}

proof fn lemma_pow256_increases(a: nat, b: nat)
    requires
        a <= b,
    ensures
        pow256(a) <= pow256(b),
    decreases b,
{
    if a < b {
        lemma_pow256_increases(a, (b - 1) as nat);
    }
}

/// Append the `width` low-order bytes of `n`, least significant first.
pub fn push_le(out: &mut Vec<u8>, n: u64, width: usize)
    ensures
        final(out)@ == old(out)@ + le_bytes(n as nat, width as nat),
{
    let mut rest: u64 = n;
    let mut i: usize = 0;
    let ghost goal = old(out)@ + le_bytes(n as nat, width as nat);
    while i < width
        invariant
            i <= width,
            goal == out@ + le_bytes(rest as nat, (width - i) as nat),
        decreases width - i,
    {
        out.push((rest % 256) as u8);
        rest = rest / 256;
        i += 1;
        assert(goal =~= out@ + le_bytes(rest as nat, (width - i) as nat));
    }
    assert(goal =~= out@);
}

/// The number that `width` bytes from position `at` stand for.
pub fn read_le(bytes: &[u8], at: usize, width: usize) -> (r: u64)
    requires
        width <= 8,
        at + width <= bytes.len(),
    ensures
        r == le_value(bytes@.subrange(at as int, at + width)),
{
    let mut acc: u64 = 0;
    let mut i: usize = width;
    assert(bytes@.subrange(at + width, at + width) =~= Seq::<u8>::empty());
    while i > 0
        invariant
            i <= width <= 8,
            at + width <= bytes.len(),
            acc == le_value(bytes@.subrange(at + i, at + width)),
        decreases i,
    {
        let ghost tail = bytes@.subrange(at + i, at + width);
        let ghost more = bytes@.subrange(at + i - 1, at + width);
        proof {
            assert(more.skip(1) =~= tail);
            lemma_le_value_bound(more);
            lemma_pow256_increases(more.len(), 8);
            lemma_pow256();
        }
        acc = acc * 256 + bytes[at + i - 1] as u64;
        i -= 1;
    }
    acc
}

// ---- two's complement ----

/// A signed 32-bit value as the unsigned number with the same bits.
pub open spec fn unsigned32(x: i32) -> u64 {
    if x < 0 {
        (x + 0x1_0000_0000) as u64
    } else {
        x as u64
    }
}

/// The signed 32-bit value with the bits of an unsigned number.
pub open spec fn signed32(u: nat) -> i32 {
    if u >= 0x8000_0000 {
        (u - 0x1_0000_0000) as i32
    } else {
        u as i32
    }
}

/// A signed 64-bit value as the unsigned number with the same bits.
pub open spec fn unsigned64(x: i64) -> u64 {
    if x < 0 {
        (x + 0x1_0000_0000_0000_0000) as u64
    } else {
        x as u64
    }
}

/// The signed 64-bit value with the bits of an unsigned number.
pub open spec fn signed64(u: nat) -> i64 {
    if u >= 0x8000_0000_0000_0000 {
        (u - 0x1_0000_0000_0000_0000) as i64
    } else {
        u as i64
    }
}

/// A signed 8-bit value as the unsigned number with the same bits.
pub open spec fn unsigned8(x: i8) -> u64 {
    if x < 0 {
        (x + 0x100) as u64
    } else {
        x as u64
    }
}

/// The signed 8-bit value with the bits of an unsigned number.
pub open spec fn signed8(u: nat) -> i8 {
    if u >= 0x80 {
        (u - 0x100) as i8
    } else {
        u as i8
    }
}

pub fn to_unsigned32(x: i32) -> (r: u64)
    ensures
        r == unsigned32(x),
        r < 0x1_0000_0000,
{
    if x < 0 {
        (x as i64 + 0x1_0000_0000) as u64
    } else {
        x as u64
    }
}

pub fn to_signed32(u: u64) -> (r: i32)
    requires
        u < 0x1_0000_0000,
    ensures
        r == signed32(u as nat),
{
    if u >= 0x8000_0000 {
        (u as i64 - 0x1_0000_0000) as i32
    } else {
        u as i32
    }
}

pub fn to_unsigned64(x: i64) -> (r: u64)
    ensures
        r == unsigned64(x),
{
    if x < 0 {
        (x as i128 + 0x1_0000_0000_0000_0000) as u64
    } else {
        x as u64
    }
}

pub fn to_signed64(u: u64) -> (r: i64)
    ensures
        r == signed64(u as nat),
{
    if u >= 0x8000_0000_0000_0000 {
        (u as i128 - 0x1_0000_0000_0000_0000) as i64
    } else {
        u as i64
    }
}

pub fn to_unsigned8(x: i8) -> (r: u64)
    ensures
        r == unsigned8(x),
        r < 0x100,
{
    if x < 0 {
        (x as i64 + 0x100) as u64
    } else {
        x as u64
    }
}

pub fn to_signed8(u: u64) -> (r: i8)
    requires
        u < 0x100,
    ensures
        r == signed8(u as nat),
{
    if u >= 0x80 {
        (u as i64 - 0x100) as i8
    } else {
        u as i8
    }
}

// ---- single precision ----

/// `0.0`.
pub const F32_ZERO: u32 = 0x0000_0000;

/// `-0.0`.
pub const F32_NEGATIVE_ZERO: u32 = 0x8000_0000;

/// `1.0`.
pub const F32_ONE: u32 = 0x3f80_0000;

/// `-1.0`.
pub const F32_MINUS_ONE: u32 = 0xbf80_0000;

/// Positive infinity.
pub const F32_INFINITY: u32 = 0x7f80_0000;

/// Negative infinity.
pub const F32_NEGATIVE_INFINITY: u32 = 0xff80_0000;

/// The quiet `NaN` with no payload.
pub const F32_NAN: u32 = 0x7fc0_0000;

/// The smallest positive normal value.
pub const F32_MIN_POSITIVE: u32 = 0x0080_0000;

/// The largest finite value.
pub const F32_MAX: u32 = 0x7f7f_ffff;

/// The most negative finite value.
pub const F32_MIN: u32 = 0xff7f_ffff;

/// A pattern without its sign bit.
pub open spec fn f32_magnitude(b: u32) -> u32 {
    if b >= 0x8000_0000 {
        (b - 0x8000_0000) as u32
    } else {
        b
    }
}

pub open spec fn f32_is_nan(b: u32) -> bool {
    f32_magnitude(b) > 0x7f80_0000
}

pub open spec fn f32_is_infinite(b: u32) -> bool {
    f32_magnitude(b) == 0x7f80_0000
}

pub open spec fn f32_is_finite(b: u32) -> bool {
    f32_magnitude(b) < 0x7f80_0000
}

pub open spec fn f32_is_subnormal(b: u32) -> bool {
    0 < f32_magnitude(b) < 0x0080_0000
}

/// Whether the value is the largest or the most negative finite one.
pub open spec fn f32_is_extreme(b: u32) -> bool {
    f32_magnitude(b) == 0x7f7f_ffff
}

pub fn f32_abs(b: u32) -> (r: u32)
    ensures
        r == f32_magnitude(b),
{
    if b >= 0x8000_0000 {
        b - 0x8000_0000
    } else {
        b
    }
}

// ---- exact values ----

/// 2 to the power `k`.
pub open spec fn two_to(k: nat) -> nat
    decreases k,
{
    if k == 0 {
        1
    } else {
        2 * two_to((k - 1) as nat)
    }
}

/// The position of the highest bit of a positive number.
pub open spec fn top_bit(m: nat) -> nat
    decreases m,
{
    if m < 2 {
        0
    } else {
        1 + top_bit(m / 2)
    }
}

/// The single-precision pattern of `m * 2^e`, negated if asked for, where `m` is below `2^24` and
/// the result is normal: the exponent field is `127 + top_bit(m) + e` and the fraction is `m`
/// without its top bit, shifted up against the exponent.
pub open spec fn f32_exact(negative: bool, m: nat, e: int) -> u32 {
    let sign: int = if negative { 0x8000_0000 } else { 0 };
    if m == 0 {
        sign as u32
    } else {
        let h = top_bit(m);
        (sign + (127 + h + e) * 0x80_0000 + (m - two_to(h)) * two_to((23 - h) as nat)) as u32
    }
}

/// The double-precision pattern of `m * 2^e`, negated if asked for, for `m` below `2^24`.
pub open spec fn f64_exact(negative: bool, m: nat, e: int) -> u64 {
    let sign: int = if negative { 0x8000_0000_0000_0000 } else { 0 };
    if m == 0 {
        sign as u64
    } else {
        let h = top_bit(m);
        (sign + (1023 + h + e) * 0x10_0000_0000_0000 + (m - two_to(h)) * two_to(
            (52 - h) as nat,
        )) as u64
    }
}

pub proof fn lemma_two_to_increases(a: nat, b: nat)
    requires
        a <= b,
    ensures
        1 <= two_to(a) <= two_to(b),
    decreases b,
{
    if a < b {
        lemma_two_to_increases(a, (b - 1) as nat);
    } else if a > 0 {
        lemma_two_to_increases((a - 1) as nat, (b - 1) as nat);
    }
}

pub proof fn lemma_two_to_adds(a: nat, b: nat)
    ensures
        two_to(a) * two_to(b) == two_to(a + b),
    decreases a,
{
    if a > 0 {
        lemma_two_to_adds((a - 1) as nat, b);
        assert(two_to(a) * two_to(b) == 2 * (two_to((a - 1) as nat) * two_to(b)))
            by (nonlinear_arith)
            requires
                two_to(a) == 2 * two_to((a - 1) as nat),
        ;
        assert((a + b - 1) as nat == (a - 1) as nat + b);
    } else {
        assert(two_to(a) * two_to(b) == two_to(b)) by (nonlinear_arith)
            requires
                two_to(a) == 1,
        ;
    }
}

pub proof fn lemma_two_to()
    ensures
        two_to(7) == 0x80,
        two_to(8) == 0x100,
        two_to(16) == 0x1_0000,
        two_to(23) == 0x80_0000,
        two_to(24) == 0x100_0000,
        two_to(52) == 0x10_0000_0000_0000,
{
    reveal_with_fuel(two_to, 53);
}

/// The top bit of a positive number brackets it between two powers of two.
pub proof fn lemma_top_bit(m: nat)
    requires
        m > 0,
    ensures
        two_to(top_bit(m)) <= m < two_to(top_bit(m) + 1),
    decreases m,
{
    if m >= 2 {
        lemma_top_bit(m / 2);
    } else {
        reveal_with_fuel(two_to, 2);
    }
}

pub proof fn lemma_top_bit_below(m: nat, k: nat)
    requires
        0 < m < two_to(k),
    ensures
        top_bit(m) < k,
{
    lemma_top_bit(m);
    if top_bit(m) >= k {
        lemma_two_to_increases(k, top_bit(m));
    }
}

/// What the fields of an exact pattern hold: the fraction, with its hidden bit restored, is `m`
/// brought up to 24 bits, and the exponent field makes up for that.
pub proof fn lemma_f32_exact_fields(negative: bool, m: nat, e: int)
    requires
        0 < m < 0x100_0000,
        1 <= 127 + top_bit(m) + e <= 254,
    ensures
        top_bit(m) <= 23,
        f32_magnitude(f32_exact(negative, m, e)) == (127 + top_bit(m) + e) * 0x80_0000 + (m
            * two_to((23 - top_bit(m)) as nat) - 0x80_0000),
        0x80_0000 <= m * two_to((23 - top_bit(m)) as nat) < 0x100_0000,
        (f32_exact(negative, m, e) >= 0x8000_0000) == negative,
        f32_is_finite(f32_exact(negative, m, e)),
        !f32_is_subnormal(f32_exact(negative, m, e)),
{
    let h = top_bit(m);
    lemma_two_to();
    lemma_top_bit(m);
    lemma_top_bit_below(m, 24);
    let up = two_to((23 - h) as nat);
    lemma_two_to_adds(h, (23 - h) as nat);
    lemma_two_to_adds(h + 1, (23 - h) as nat);
    lemma_two_to_increases(0, (23 - h) as nat);
    assert(two_to(h) * up <= m * up < two_to(h + 1) * up) by (nonlinear_arith)
        requires
            two_to(h) <= m < two_to(h + 1),
            up >= 1,
    ;
    assert((m - two_to(h)) * up == m * up - two_to(h) * up) by (nonlinear_arith);
}

/// The fraction of an exact pattern stays below the exponent field.
pub proof fn lemma_f64_exact_fields(m: nat, e: int)
    requires
        0 < m < 0x100_0000,
    ensures
        top_bit(m) <= 23,
        0 <= (m - two_to(top_bit(m))) * two_to((52 - top_bit(m)) as nat) < 0x10_0000_0000_0000,
{
    let h = top_bit(m);
    lemma_two_to();
    lemma_top_bit(m);
    lemma_top_bit_below(m, 24);
    let up = two_to((52 - h) as nat);
    lemma_two_to_adds(h, (52 - h) as nat);
    lemma_two_to_increases(0, (52 - h) as nat);
    assert(0 <= (m - two_to(h)) * up < two_to(h) * up) by (nonlinear_arith)
        requires
            two_to(h) <= m < 2 * two_to(h),
            up >= 1,
    ;
}

/// The top bit of a number below `2^24`, and the power of two it stands for.
fn top_bit_of(m: u32) -> (r: (u32, u32))
    requires
        0 < m < 0x100_0000,
    ensures
        r.0 == top_bit(m as nat),
        r.1 == two_to(top_bit(m as nat)),
        r.0 <= 23,
{
    let mut rest: u32 = m;
    let mut h: u32 = 0;
    let mut power: u32 = 1;
    proof {
        lemma_two_to();
        lemma_top_bit_below(m as nat, 24);
    }
    while rest >= 2
        invariant
            rest > 0,
            0 < m < 0x100_0000,
            h + top_bit(rest as nat) == top_bit(m as nat),
            top_bit(m as nat) <= 23,
            power == two_to(h as nat),
            two_to(23) == 0x80_0000,
        decreases rest,
    {
        proof {
            lemma_two_to_increases(h as nat, 22);
            reveal_with_fuel(two_to, 2);
        }
        rest = rest / 2;
        h = h + 1;
        power = power * 2;
    }
    (h, power)
}

fn power_of_two(k: u32) -> (r: u64)
    requires
        k <= 52,
    ensures
        r == two_to(k as nat),
{
    let mut power: u64 = 1;
    let mut i: u32 = 0;
    while i < k
        invariant
            i <= k <= 52,
            power == two_to(i as nat),
        decreases k - i,
    {
        proof {
            lemma_two_to_increases(i as nat, 52);
            lemma_two_to();
        }
        power = power * 2;
        i = i + 1;
    }
    power
}

/// The single-precision pattern of `m * 2^e`, negated if asked for.
pub fn f32_of(negative: bool, m: u32, e: i32) -> (r: u32)
    requires
        m < 0x100_0000,
        m > 0 ==> 1 <= 127 + top_bit(m as nat) + e <= 254,
    ensures
        r == f32_exact(negative, m as nat, e as int),
{
    let sign: u64 = if negative { 0x8000_0000 } else { 0 };
    if m == 0 {
        sign as u32
    } else {
        proof {
            lemma_f32_exact_fields(negative, m as nat, e as int);
        }
        let (h, power): (u32, u32) = top_bit_of(m);
        let up: u64 = power_of_two(23 - h);
        let exponent: u64 = (127 + h as i64 + e as i64) as u64;
        proof {
            lemma_top_bit(m as nat);
            lemma_two_to();
            lemma_two_to_adds(h as nat, (23 - h) as nat);
            assert((m - power) * up == m * up - power * up) by (nonlinear_arith);
            assert(power * up == 0x80_0000);
        }
        let fraction: u64 = (m - power) as u64 * up;
        (sign + exponent * 0x80_0000 + fraction) as u32
    }
}

/// The double-precision pattern of `m * 2^e`, negated if asked for.
pub fn f64_of(negative: bool, m: u32, e: i32) -> (r: u64)
    requires
        m < 0x100_0000,
        -900 <= e <= 900,
    ensures
        r == f64_exact(negative, m as nat, e as int),
{
    let sign: u64 = if negative { 0x8000_0000_0000_0000 } else { 0 };
    if m == 0 {
        sign
    } else {
        proof {
            lemma_f64_exact_fields(m as nat, e as int);
        }
        let (h, power): (u32, u32) = top_bit_of(m);
        let up: u64 = power_of_two(52 - h);
        let exponent: u64 = (1023 + h as i64 + e as i64) as u64;
        proof {
            lemma_top_bit(m as nat);
        }
        let fraction: u64 = (m - power) as u64 * up;
        sign + exponent * 0x10_0000_0000_0000 + fraction
    }
}

// ---- double precision ----

/// `-0.0`.
pub const F64_NEGATIVE_ZERO: u64 = 0x8000_0000_0000_0000;

/// `1.0`.
pub const F64_ONE: u64 = 0x3ff0_0000_0000_0000;

/// A pattern without its sign bit.
pub open spec fn f64_magnitude(b: u64) -> u64 {
    if b >= 0x8000_0000_0000_0000 {
        (b - 0x8000_0000_0000_0000) as u64
    } else {
        b
    }
}

pub open spec fn f64_is_nan(b: u64) -> bool {
    f64_magnitude(b) > 0x7ff0_0000_0000_0000
}

pub open spec fn f64_is_infinite(b: u64) -> bool {
    f64_magnitude(b) == 0x7ff0_0000_0000_0000
}

pub open spec fn f64_is_finite(b: u64) -> bool {
    f64_magnitude(b) < 0x7ff0_0000_0000_0000
}

pub open spec fn f64_is_subnormal(b: u64) -> bool {
    0 < f64_magnitude(b) < 0x0010_0000_0000_0000
}

/// Whether the value is the largest or the most negative finite one.
pub open spec fn f64_is_extreme(b: u64) -> bool {
    f64_magnitude(b) == 0x7fef_ffff_ffff_ffff
}

pub fn f64_abs(b: u64) -> (r: u64)
    ensures
        r == f64_magnitude(b),
{
    if b >= 0x8000_0000_0000_0000 {
        b - 0x8000_0000_0000_0000
    } else {
        b
    }
}

} // verus!
