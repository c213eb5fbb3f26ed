//! Fingerprints: how a version of some code is named in a record, and read back out of one.
//!
//! A fingerprint is the FNV-1a hash of the code's files, folded to 32 bits and written in eight
//! hexadecimal digits behind a marker. It is read back from the text that holds it, and stored
//! nowhere else, so that a description and its fingerprint cannot disagree.

use vstd::prelude::*;

use crate::text::{chars_of, digit_char, digits_text, hex_text, holds_at, is_whitespace, whitespace};

verus! {

/// The version of the code that decides what a case looks like: the values, the shapes and the cases
/// that are drawn. It changes with that code, so that cases of two versions are not taken for
/// samples of one distribution.
pub const GENERATOR_FINGERPRINT: u32 = 0x239e_1401;

/// The version of the code that decides whether two results agree: the normal form, the oracle, the
/// catalog of legal differences and the signatures. It changes with that code.
pub const POLICY_FINGERPRINT: u32 = 0xb2e3_279f;

/// The hash of nothing.
pub const HASH_SEED: u64 = 0xcbf2_9ce4_8422_2325;

/// What the hash is multiplied by for every byte.
pub const HASH_PRIME: u64 = 0x0100_0000_01b3;

/// The hash of some bytes that follow what was hashed before.
pub open spec fn hash_of(bytes: Seq<u8>, hash: u64) -> u64
    decreases bytes.len(),
{
    if bytes.len() == 0 {
        hash
    } else {
        u64::wrapping_mul(
            hash_of(bytes.drop_last(), hash) ^ (bytes.last() as u64),
            HASH_PRIME,
        )
    }
}

/// The FNV-1a hash of some bytes that follow what was hashed before.
pub fn fnv1a(bytes: &[u8], hash: u64) -> (r: u64)
    ensures
        r == hash_of(bytes@, hash),
{
    let mut out: u64 = hash;
    let mut i: usize = 0;
    assert(bytes@.take(0) =~= Seq::empty());
    while i < bytes.len()
        invariant
            i <= bytes.len(),
            out == hash_of(bytes@.take(i as int), hash),
        decreases bytes.len() - i,
    {
        assert(bytes@.take(i + 1).drop_last() =~= bytes@.take(i as int));
        out = (out ^ (bytes[i] as u64)).wrapping_mul(HASH_PRIME);
        i += 1;
    }
    assert(bytes@.take(bytes@.len() as int) =~= bytes@);
    out
}

/// A hash folded to half its width.
pub open spec fn folded(hash: u64) -> u32 {
    (hash ^ (hash >> 32)) as u32
}

/// A hash folded to half its width.
pub fn fold(hash: u64) -> (r: u32)
    ensures
        r == folded(hash),
{
    #[verifier::truncate]
    let r: u32 = (hash ^ (hash >> 32)) as u32;
    r
}

// ---- reading a fingerprint ----

/// What stands before a fingerprint.
pub open spec fn marker() -> Seq<char> {
    "fingerprint="@
}

/// Whether a word of a text begins at a position, and begins with the marker.
pub open spec fn marked_at(s: Seq<char>, at: int) -> bool {
    &&& at == 0 || whitespace(s[at - 1])
    &&& holds_at(s, marker(), at)
}

/// The first marked word of a text at or after a position, or the text's end.
pub open spec fn first_mark(s: Seq<char>, at: int) -> int
    decreases s.len() - at,
{
    if at >= s.len() || marked_at(s, at) {
        at
    } else {
        first_mark(s, at + 1)
    }
}

/// Where the word that holds a position ends.
pub open spec fn word_end(s: Seq<char>, at: int) -> int
    decreases s.len() - at,
{
    if at >= s.len() || whitespace(s[at]) {
        at
    } else {
        word_end(s, at + 1)
    }
}

/// The value of a hexadecimal digit in either case.
pub open spec fn digit_value(c: char) -> Option<nat> {
    if '0' <= c <= '9' {
        Some((c as int - '0' as int) as nat)
    } else if 'a' <= c <= 'f' {
        Some((c as int - 'a' as int + 10) as nat)
    } else if 'A' <= c <= 'F' {
        Some((c as int - 'A' as int + 10) as nat)
    } else {
        None
    }
}

/// The number that a run of hexadecimal digits writes.
pub open spec fn digits_value(s: Seq<char>) -> Option<nat>
    decreases s.len(),
{
    if s.len() == 0 {
        Some(0)
    } else {
        match (digits_value(s.drop_last()), digit_value(s.last())) {
            (Some(high), Some(low)) => Some(high * 16 + low),
            _ => None,
        }
    }
}

/// A number of 32 bits that a text writes in hexadecimal: at least one digit, after a plus sign
/// or none.
pub open spec fn hex_number(s: Seq<char>) -> Option<u32> {
    let digits = if s.len() > 0 && s[0] == '+' { s.skip(1) } else { s };
    if digits.len() == 0 {
        None
    } else {
        match digits_value(digits) {
            Some(n) => if n <= u32::MAX { Some(n as u32) } else { None },
            None => None,
        }
    }
}

/// The fingerprint that a text records: what the first marked word holds behind its marker.
pub open spec fn recorded(s: Seq<char>) -> Option<u32> {
    let at = first_mark(s, 0);
    if at >= s.len() {
        None
    } else {
        hex_number(s.subrange(at + marker().len(), word_end(s, at)))
    }
}

proof fn lemma_marker()
    ensures
        marker() =~= seq!['f', 'i', 'n', 'g', 'e', 'r', 'p', 'r', 'i', 'n', 't', '='],
{
    reveal_strlit("fingerprint=");
}

/// A word that holds the marker does not end inside it.
proof fn lemma_word_end(s: Seq<char>, at: int, to: int)
    requires
        0 <= at <= to <= s.len(),
        forall|k: int| at <= k < to ==> !whitespace(#[trigger] s[k]),
    ensures
        word_end(s, at) == word_end(s, to),
    decreases to - at,
{
    if at < to {
        assert(!whitespace(s[at]));
        lemma_word_end(s, at + 1, to);
    }
}

proof fn lemma_word_end_bounds(s: Seq<char>, at: int)
    requires
        0 <= at <= s.len(),
    ensures
        at <= word_end(s, at) <= s.len(),
        word_end(s, at) < s.len() ==> whitespace(s[word_end(s, at)]),
        forall|k: int| at <= k < word_end(s, at) ==> !whitespace(#[trigger] s[k]),
    decreases s.len() - at,
{
    if at < s.len() && !whitespace(s[at]) {
        lemma_word_end_bounds(s, at + 1);
    }
}

proof fn lemma_marked_word(s: Seq<char>, at: int)
    requires
        0 <= at < s.len(),
        marked_at(s, at),
    ensures
        word_end(s, at) == word_end(s, at + 12),
        at + 12 <= word_end(s, at) <= s.len(),
{
    lemma_marker();
    assert forall|k: int| at <= k < at + 12 implies !whitespace(#[trigger] s[k]) by {
        assert(s[k] == s.subrange(at, at + marker().len())[k - at]);
        assert(s[k] == marker()[k - at]);
    }
    lemma_word_end(s, at, at + 12);
    lemma_word_end_bounds(s, at + 12);
}

fn digit_of(c: char) -> (r: Option<u64>)
    ensures
        match r {
            Some(d) => digit_value(c) == Some(d as nat) && d < 16,
            None => digit_value(c) is None,
        },
{
    if '0' <= c && c <= '9' {
        Some((c as u64) - 48)
    } else if 'a' <= c && c <= 'f' {
        Some((c as u64) - 87)
    } else if 'A' <= c && c <= 'F' {
        Some((c as u64) - 55)
    } else {
        None
    }
}

/// A longer run of digits writes at least as large a number.
proof fn lemma_longer_is_larger(s: Seq<char>, n: int)
    requires
        0 <= n <= s.len(),
        digits_value(s) is Some,
    ensures
        digits_value(s.take(n)) is Some,
        digits_value(s.take(n))->0 <= digits_value(s)->0,
    decreases s.len(),
{
    if n == s.len() {
        assert(s.take(n) =~= s);
    } else {
        lemma_longer_is_larger(s.drop_last(), n);
        assert(s.drop_last().take(n) =~= s.take(n));
    }
}

/// Reads a hexadecimal number between two positions.
fn read_hex(s: &Vec<char>, from: usize, to: usize) -> (r: Option<u32>)
    requires
        from <= to <= s.len(),
    ensures
        r == hex_number(s@.subrange(from as int, to as int)),
{
    let ghost whole = s@.subrange(from as int, to as int);
    let start: usize = if from < to && s[from] == '+' { from + 1 } else { from };
    let ghost digits = s@.subrange(start as int, to as int);
    proof {
        if start > from {
            assert(whole[0] == '+');
            assert(whole.skip(1) =~= digits);
        } else {
            assert(whole =~= digits);
            if from < to {
                assert(whole[0] == s@[from as int]);
            }
        }
    }
    if start == to {
        return None;
    }
    let mut value: u64 = 0;
    let mut i: usize = start;
    assert(digits.take(0) =~= Seq::empty());
    while i < to
        invariant
            start <= i <= to <= s.len(),
            start < to,
            whole == s@.subrange(from as int, to as int),
            digits == s@.subrange(start as int, to as int),
            value <= u32::MAX,
            digits_value(digits.take(i - start)) == Some(value as nat),
            hex_number(whole) == match digits_value(digits) {
                Some(n) => if n <= u32::MAX { Some(n as u32) } else { None },
                None => None,
            },
        decreases to - i,
    {
        let ghost next = digits.take(i - start + 1);
        assert(next.drop_last() =~= digits.take(i - start));
        assert(next.last() == s@[i as int]);
        match digit_of(s[i]) {
            None => {
                proof {
                    if digits_value(digits) is Some {
                        lemma_longer_is_larger(digits, i - start + 1);
                    }
                }
                return None;
            },
            Some(d) => {
                value = value * 16 + d;
            },
        }
        if value > u32::MAX as u64 {
            proof {
                if digits_value(digits) is Some {
                    lemma_longer_is_larger(digits, i - start + 1);
                }
            }
            return None;
        }
        i += 1;
    }
    assert(digits.take(to - start) =~= digits);
    Some(value as u32)
}

/// Whether a position holds the marker.
fn marker_at(s: &Vec<char>, at: usize) -> (r: bool)
    requires
        at <= s.len(),
    ensures
        r == holds_at(s@, marker(), at as int),
{
    let mark: Vec<char> = chars_of("fingerprint=");
    if s.len() - at < mark.len() {
        return false;
    }
    let mut i: usize = 0;
    while i < mark.len()
        invariant
            i <= mark.len(),
            at + mark.len() <= s.len(),
            mark@ == marker(),
            forall|k: int| 0 <= k < i ==> s@[at + k] == #[trigger] mark@[k],
        decreases mark.len() - i,
    {
        if s[at + i] != mark[i] {
            assert(s@.subrange(at as int, at + mark@.len())[i as int] != mark@[i as int]);
            return false;
        }
        i += 1;
    }
    assert(s@.subrange(at as int, at + mark@.len()) =~= mark@);
    true
}

/// The fingerprint that a text records, if it records one.
pub fn fingerprint_in(text: &str) -> (r: Option<u32>)
    ensures
        r == recorded(text@),
{
    let s: Vec<char> = chars_of(text);
    let mut at: usize = 0;
    while at < s.len()
        invariant
            at <= s.len(),
            s@ == text@,
            first_mark(s@, at as int) == first_mark(s@, 0),
        decreases s.len() - at,
    {
        if (at == 0 || is_whitespace(s[at - 1])) && marker_at(&s, at) {
            proof {
                lemma_marker();
                lemma_marked_word(s@, at as int);
            }
            let start: usize = at + 12;
            let mut end: usize = start;
            while end < s.len() && !is_whitespace(s[end])
                invariant
                    start <= end <= s.len(),
                    word_end(s@, end as int) == word_end(s@, start as int),
                ensures
                    end == word_end(s@, start as int),
                decreases s.len() - end,
            {
                end += 1;
            }
            return read_hex(&s, start, end);
        }
        at += 1;
    }
    None
}

// ---- laws ----

/// What digits of a number in hexadecimal are read back as is that number.
pub proof fn lemma_digits_read_back(n: nat)
    ensures
        digits_value(digits_text(n, 16)) == Some(n),
        digits_text(n, 16).len() >= 1,
        forall|k: int|
            0 <= k < digits_text(n, 16).len() ==> digit_value(#[trigger] digits_text(n, 16)[k]) is Some,
    decreases n,
{
    let s = digits_text(n, 16);
    if n < 16 {
        assert(s =~= seq![digit_char(n)]);
        assert(s.drop_last() =~= Seq::empty());
        assert(digit_value(digit_char(n)) == Some(n));
        assert(digits_value(s.drop_last()) == Some(0nat));
        assert(digits_value(s) == Some(n));
    } else {
        lemma_digits_read_back(n / 16);
        assert(s.drop_last() =~= digits_text(n / 16, 16));
        assert(digit_value(digit_char(n % 16)) == Some(n % 16));
        assert(s.last() == digit_char(n % 16));
        assert(n == (n / 16) * 16 + n % 16);
    }
}

proof fn lemma_leading_zeros(zeros: Seq<char>, s: Seq<char>)
    requires
        forall|k: int| 0 <= k < zeros.len() ==> #[trigger] zeros[k] == '0',
    ensures
        digits_value(zeros + s) == digits_value(s),
    decreases s.len(), zeros.len(),
{
    let whole = zeros + s;
    if s.len() > 0 {
        assert(whole.drop_last() =~= zeros + s.drop_last());
        assert(whole.last() == s.last());
        lemma_leading_zeros(zeros, s.drop_last());
    } else if zeros.len() > 0 {
        assert(whole =~= zeros);
        assert(whole.drop_last() =~= zeros.drop_last() + s);
        lemma_leading_zeros(zeros.drop_last(), s);
        assert(s =~= Seq::empty());
        assert(whole.last() == '0');
    } else {
        assert(whole =~= s);
    }
}

/// A number of 32 bits written in eight hexadecimal digits is read back as that number.
pub proof fn lemma_a_number_is_read_back(n: u32)
    ensures
        hex_number(hex_text(n as nat, 8)) == Some(n),
        forall|k: int|
            0 <= k < hex_text(n as nat, 8).len() ==> !whitespace(
                #[trigger] hex_text(n as nat, 8)[k],
            ),
{
    let digits = digits_text(n as nat, 16);
    let written = hex_text(n as nat, 8);
    lemma_digits_read_back(n as nat);
    if digits.len() < 8 {
        let zeros = Seq::new((8 - digits.len()) as nat, |i: int| '0');
        lemma_leading_zeros(zeros, digits);
        assert(written =~= zeros + digits);
        assert forall|k: int| 0 <= k < written.len() implies digit_value(#[trigger] written[k]) is Some by {
            if k >= zeros.len() {
                assert(written[k] == digits[k - zeros.len()]);
            } else {
                assert(written[k] == '0');
            }
        }
    } else {
        assert(written == digits);
    }
    assert(digit_value(written[0]) is Some);
    assert forall|k: int| 0 <= k < written.len() implies !whitespace(#[trigger] written[k]) by {
        assert(digit_value(written[k]) is Some);
    }
}

/// A fingerprint that is written behind a text without a marked word, and behind a space, is read
/// back from the whole.
pub proof fn lemma_a_fingerprint_is_read_back(before: Seq<char>, n: u32)
    requires
        before.len() > 0,
        whitespace(before.last()),
        forall|at: int| 0 <= at < before.len() ==> !#[trigger] marked_at(before + marker() + hex_text(n as nat, 8), at),
    ensures
        recorded(before + marker() + hex_text(n as nat, 8)) == Some(n),
{
    let written = hex_text(n as nat, 8);
    let s = before + marker() + written;
    let at = before.len() as int;
    lemma_marker();
    lemma_a_number_is_read_back(n);
    assert(s.subrange(at, at + marker().len()) =~= marker());
    assert(s[at - 1] == before.last());
    assert(marked_at(s, at));
    lemma_first_mark(s, 0, at);
    lemma_marked_word(s, at);
    assert forall|k: int| at + 12 <= k < s.len() implies !whitespace(#[trigger] s[k]) by {
        assert(s[k] == written[k - at - 12]);
    }
    lemma_word_end(s, at + 12, s.len() as int);
    assert(s.subrange(at + 12, s.len() as int) =~= written);
}

proof fn lemma_first_mark(s: Seq<char>, from: int, at: int)
    requires
        0 <= from <= at < s.len(),
        marked_at(s, at),
        forall|k: int| from <= k < at ==> !#[trigger] marked_at(s, k),
    ensures
        first_mark(s, from) == at,
    decreases at - from,
{
    if from < at {
        assert(!marked_at(s, from));
        lemma_first_mark(s, from + 1, at);
    }
}

/// The hash of two pieces is the hash of the second that follows the hash of the first.
pub proof fn lemma_hashing_chains(a: Seq<u8>, b: Seq<u8>, hash: u64)
    ensures
        hash_of(a + b, hash) == hash_of(b, hash_of(a, hash)),
    decreases b.len(),
{
    if b.len() == 0 {
        assert(a + b =~= a);
    } else {
        assert((a + b).drop_last() =~= a + b.drop_last());
        lemma_hashing_chains(a, b.drop_last(), hash);
    }
}

} // verus!
