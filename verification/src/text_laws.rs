//! What the texts that are written and read amount to.

use vstd::prelude::*;

use crate::case::DataModel;
use crate::describe::element_text;
use crate::fingerprint::{folded, hash_of};
use crate::order::{sort_texts, text_le, text_order};
use crate::text::{clip, decimal_text, digits_text, first_line, first_line_from, hex_text};
use crate::text::{integer_text, join_text, last_line, last_line_start, lemma_digits_tell_numbers_apart};
use crate::text::{lemma_integers_are_told_apart, lemma_last_line_start, trim, trim_end, trim_start};
use crate::text::{blank, whitespace};

verus! {

// ---- numbers ----

/// The value of a digit, counted from the code points of `0` and of `a`.
pub open spec fn value_of_digit(c: char) -> int {
    if '0' <= c <= '9' {
        c as int - 48
    } else {
        c as int - 97 + 10
    }
}

/// The number that digits stand for.
pub open spec fn value_of_digits(s: Seq<char>, base: int) -> int
    decreases s.len(),
{
    if s.len() == 0 {
        0
    } else {
        value_of_digits(s.drop_last(), base) * base + value_of_digit(s.last())
    }
}

/// Digits stand for the number that was written, and do not begin with a zero unless it is zero.
pub proof fn lemma_digits_stand_for_their_number(n: nat, base: nat)
    requires
        2 <= base <= 16,
    ensures
        value_of_digits(digits_text(n, base), base as int) == n,
        digits_text(n, base).len() >= 1,
        n > 0 ==> digits_text(n, base)[0] != '0',
    decreases n,
{
    let s = digits_text(n, base);
    if n < base {
        assert(s.drop_last() =~= Seq::empty());
        assert(value_of_digits(s.drop_last(), base as int) == 0);
        assert(0 * (base as int) == 0) by (nonlinear_arith);
    } else {
        assert(0 < n / base < n) by (nonlinear_arith)
            requires
                2 <= base <= n,
        ;
        lemma_digits_stand_for_their_number(n / base, base);
        assert(s.drop_last() =~= digits_text(n / base, base));
        vstd::arithmetic::div_mod::lemma_fundamental_div_mod(n as int, base as int);
        vstd::arithmetic::div_mod::lemma_mod_bound(n as int, base as int);
        assert((n / base) * base == base * (n / base)) by (nonlinear_arith);
        assert(s[0] == digits_text(n / base, base)[0]);
    }
}

/// A number in decimal, with a sign where it is negative.
pub proof fn lemma_integers_are_written_in_decimal(n: int)
    ensures
        n >= 0 ==> integer_text(n) == decimal_text(n as nat) && value_of_digits(integer_text(n), 10)
            == n,
        n < 0 ==> integer_text(n)[0] == '-' && value_of_digits(integer_text(n).skip(1), 10) == -n,
{
    let x = if n < 0 { (-n) as nat } else { n as nat };
    lemma_digits_stand_for_their_number(x, 10);
    if n < 0 {
        assert(integer_text(n).skip(1) =~= decimal_text(x));
    }
}

/// A number in hexadecimal is brought to a width with zeros in front.
pub proof fn lemma_hexadecimals_are_padded(n: nat, width: nat)
    ensures
        hex_text(n, width).len() >= width,
        hex_text(n, width).len() == width || hex_text(n, width) == digits_text(n, 16),
        value_of_digits(hex_text(n, width), 16) == n,
{
    lemma_digits_stand_for_their_number(n, 16);
    let d = digits_text(n, 16);
    if d.len() < width {
        lemma_zeros_in_front((width - d.len()) as nat, d);
    }
}

proof fn lemma_zeros_in_front(k: nat, s: Seq<char>)
    ensures
        value_of_digits(Seq::new(k, |i: int| '0') + s, 16) == value_of_digits(s, 16),
    decreases s.len(), k,
{
    let zeros = Seq::new(k, |i: int| '0');
    let all = zeros + s;
    if s.len() > 0 {
        lemma_zeros_in_front(k, s.drop_last());
        assert(all.drop_last() =~= zeros + s.drop_last());
    } else if k > 0 {
        lemma_zeros_in_front((k - 1) as nat, s);
        assert(all.drop_last() =~= Seq::new((k - 1) as nat, |i: int| '0') + s);
        assert(all.last() == '0');
    } else {
        assert(all =~= s);
    }
}

/// Elements of one type that are written alike are the same to the bit.
pub proof fn lemma_elements_are_told_apart(a: DataModel, b: DataModel, i: int, j: int)
    requires
        a.elem_type() == b.elem_type(),
        0 <= i < a.len(),
        0 <= j < b.len(),
        element_text(a, i) == element_text(b, j),
    ensures
        a.bits(i) == b.bits(j),
{
    match (a, b) {
        (DataModel::F32(v), DataModel::F32(w)) => {
            let (x, y) = (digits_text(v[i] as nat, 16), digits_text(w[j] as nat, 16));
            assert(("0x"@ + x).skip("0x"@.len() as int) =~= x);
            assert(("0x"@ + y).skip("0x"@.len() as int) =~= y);
            lemma_digits_tell_numbers_apart(v[i] as nat, w[j] as nat, 16);
        },
        (DataModel::F64(v), DataModel::F64(w)) => {
            let (x, y) = (digits_text(v[i] as nat, 16), digits_text(w[j] as nat, 16));
            assert(("0x"@ + x).skip("0x"@.len() as int) =~= x);
            assert(("0x"@ + y).skip("0x"@.len() as int) =~= y);
            lemma_digits_tell_numbers_apart(v[i] as nat, w[j] as nat, 16);
        },
        (DataModel::I32(v), DataModel::I32(w)) => {
            lemma_integers_are_told_apart(v[i] as int, w[j] as int);
        },
        (DataModel::I64(v), DataModel::I64(w)) => {
            lemma_integers_are_told_apart(v[i] as int, w[j] as int);
        },
        (DataModel::I8(v), DataModel::I8(w)) => {
            lemma_integers_are_told_apart(v[i] as int, w[j] as int);
        },
        (DataModel::U8(v), DataModel::U8(w)) => {
            lemma_digits_tell_numbers_apart(v[i] as nat, w[j] as nat, 10);
        },
        (DataModel::Bool(v), DataModel::Bool(w)) => {
            reveal_strlit("true");
            reveal_strlit("false");
            assert("true"@.len() == 4 && "false"@.len() == 5);
        },
        _ => {},
    }
}

// ---- lists ----

/// Parts are joined with the separator between them and nowhere else.
pub proof fn lemma_parts_are_joined(parts: Seq<Seq<char>>, next: Seq<char>, sep: Seq<char>)
    ensures
        join_text(Seq::<Seq<char>>::empty(), sep) == Seq::<char>::empty(),
        join_text(seq![next], sep) == next,
        parts.len() > 0 ==> join_text(parts.push(next), sep) == join_text(parts, sep) + sep + next,
{
    assert(parts.push(next).drop_last() =~= parts);
}

/// Whether one text comes before another or is the same: where they first differ its character has
/// the lower code point, or it ends there.
pub open spec fn comes_first(a: Seq<char>, b: Seq<char>) -> bool {
    exists|k: int|
        #![trigger a.take(k)]
        0 <= k <= a.len() && k <= b.len() && a.take(k) == b.take(k) && (k == a.len() || (k < b.len()
            && (a[k] as int) < (b[k] as int)))
}

/// Texts are ordered character by character.
pub proof fn lemma_texts_are_ordered_by_characters(a: Seq<char>, b: Seq<char>)
    ensures
        text_le(a, b) == comes_first(a, b),
    decreases a.len(),
{
    if a.len() == 0 {
        assert(a.take(0) =~= b.take(0));
    } else if b.len() == 0 {
        if comes_first(a, b) {
            let k = choose|k: int|
                #![trigger a.take(k)]
                0 <= k <= a.len() && k <= b.len() && a.take(k) == b.take(k) && (k == a.len() || (k
                    < b.len() && (a[k] as int) < (b[k] as int)));
            assert(k == 0);
        }
    } else if a[0] != b[0] {
        if (a[0] as int) < (b[0] as int) {
            assert(a.take(0) =~= b.take(0));
        }
        if comes_first(a, b) {
            let k = choose|k: int|
                #![trigger a.take(k)]
                0 <= k <= a.len() && k <= b.len() && a.take(k) == b.take(k) && (k == a.len() || (k
                    < b.len() && (a[k] as int) < (b[k] as int)));
            if k > 0 {
                assert(a.take(k)[0] == a[0] && b.take(k)[0] == b[0]);
            }
        }
    } else {
        let (x, y) = (a.skip(1), b.skip(1));
        lemma_texts_are_ordered_by_characters(x, y);
        if comes_first(x, y) {
            let k = choose|k: int|
                #![trigger x.take(k)]
                0 <= k <= x.len() && k <= y.len() && x.take(k) == y.take(k) && (k == x.len() || (k
                    < y.len() && (x[k] as int) < (y[k] as int)));
            let (long, other) = (a.take(k + 1), b.take(k + 1));
            assert forall|i: int| 0 <= i < k + 1 implies #[trigger] long[i] == other[i] by {
                if i > 0 {
                    assert(x.take(k)[i - 1] == y.take(k)[i - 1]);
                }
            }
            assert(long =~= other);
        }
        if comes_first(a, b) {
            let k = choose|k: int|
                #![trigger a.take(k)]
                0 <= k <= a.len() && k <= b.len() && a.take(k) == b.take(k) && (k == a.len() || (k
                    < b.len() && (a[k] as int) < (b[k] as int)));
            if k > 0 {
                let (short, other) = (x.take(k - 1), y.take(k - 1));
                assert forall|i: int| 0 <= i < k - 1 implies #[trigger] short[i] == other[i] by {
                    assert(a.take(k)[i + 1] == b.take(k)[i + 1]);
                }
                assert(short =~= other);
            }
        }
    }
}

/// Sorted names are the same names, in order.
pub proof fn lemma_sorted_names_are_in_order(s: Seq<Seq<char>>, i: int, j: int)
    requires
        0 <= i < j < s.len(),
    ensures
        sort_texts(s).len() == s.len(),
        comes_first(sort_texts(s)[i], sort_texts(s)[j]),
        sort_texts(s).to_multiset() == s.to_multiset(),
{
    crate::order::lemma_text_order();
    s.lemma_sort_by_ensures(text_order());
    let r = text_order();
    let t = sort_texts(s);
    vstd::seq_lib::to_multiset_len(s);
    vstd::seq_lib::to_multiset_len(t);
    assert(t.len() == s.len());
    assert(vstd::relations::sorted_by(t, r));
    assert(r(t[i], t[j]));
    lemma_texts_are_ordered_by_characters(sort_texts(s)[i], sort_texts(s)[j]);
}

// ---- lines ----

proof fn lemma_trim_end(s: Seq<char>)
    ensures
        trim_end(s).len() <= s.len(),
        trim_end(s) == s.take(trim_end(s).len() as int),
        forall|i: int| trim_end(s).len() <= i < s.len() ==> whitespace(#[trigger] s[i]),
        trim_end(s).len() > 0 ==> !whitespace(trim_end(s).last()),
    decreases s.len(),
{
    if s.len() > 0 && whitespace(s.last()) {
        let t = s.drop_last();
        lemma_trim_end(t);
        assert forall|i: int| trim_end(s).len() <= i < s.len() implies whitespace(
            #[trigger] s[i],
        ) by {
            if i < s.len() - 1 {
                assert(t[i] == s[i]);
            }
        }
        assert(t.take(trim_end(t).len() as int) =~= s.take(trim_end(t).len() as int));
    } else {
        assert(s.take(s.len() as int) =~= s);
    }
}

proof fn lemma_trim_start(s: Seq<char>)
    ensures
        trim_start(s).len() <= s.len(),
        trim_start(s) == s.skip(s.len() - trim_start(s).len()),
        forall|i: int| 0 <= i < s.len() - trim_start(s).len() ==> whitespace(#[trigger] s[i]),
        trim_start(s).len() > 0 ==> !whitespace(trim_start(s)[0]),
    decreases s.len(),
{
    if s.len() > 0 && whitespace(s[0]) {
        let t = s.skip(1);
        lemma_trim_start(t);
        let k = t.len() - trim_start(t).len();
        assert forall|i: int| 0 <= i < s.len() - trim_start(s).len() implies whitespace(
            #[trigger] s[i],
        ) by {
            if i > 0 {
                assert(t[i - 1] == s[i]);
            }
        }
        assert(t.skip(k) =~= s.skip(k + 1));
    } else {
        assert(s.skip(0) =~= s);
    }
}

/// Whether a text is what is left of another between two places, with white space alone around it
/// and none at its own ends.
pub open spec fn is_core(t: Seq<char>, s: Seq<char>, from: int, to: int) -> bool {
    &&& 0 <= from <= to <= s.len()
    &&& t == s.subrange(from, to)
    &&& forall|i: int| 0 <= i < from ==> whitespace(#[trigger] s[i])
    &&& forall|i: int| to <= i < s.len() ==> whitespace(#[trigger] s[i])
    &&& from < to ==> !whitespace(s[from]) && !whitespace(s[to - 1])
}

/// Trimming takes off the white space at both ends and nothing else.
pub proof fn lemma_trimming_leaves_the_core(s: Seq<char>)
    ensures
        exists|from: int, to: int| #[trigger] is_core(trim(s), s, from, to),
{
    lemma_trim_end(s);
    let e = trim_end(s);
    lemma_trim_start(e);
    let (from, to) = (e.len() - trim(s).len(), e.len() as int);
    assert forall|i: int| 0 <= i < from implies whitespace(#[trigger] s[i]) by {
        assert(e[i] == s[i]);
    }
    assert(trim(s) =~= s.subrange(from, to));
    if from < to {
        assert(trim(s)[0] == s[from]);
        assert(e.last() == s[to - 1]);
    }
    assert(is_core(trim(s), s, from, to));
}

/// Whether a text is the last line of another that says something: it stands in one line, with
/// white space alone before it in that line and after it to the end.
pub open spec fn is_last_word(t: Seq<char>, s: Seq<char>, line: int, from: int, to: int) -> bool {
    &&& 0 <= line <= from < to <= s.len()
    &&& t == s.subrange(from, to)
    &&& line == 0 || s[line - 1] == '\n'
    &&& forall|i: int| line <= i < to ==> #[trigger] s[i] != '\n'
    &&& forall|i: int| line <= i < from ==> whitespace(#[trigger] s[i])
    &&& forall|i: int| to <= i < s.len() ==> whitespace(#[trigger] s[i])
    &&& !whitespace(s[from]) && !whitespace(s[to - 1])
}

/// The last line of a text is the last that says something, without white space around it. It is
/// empty where none does.
pub proof fn lemma_the_last_line_says_something(s: Seq<char>)
    ensures
        blank(s) ==> last_line(s).len() == 0,
        !blank(s) ==> exists|line: int, from: int, to: int| #[trigger]
            is_last_word(last_line(s), s, line, from, to),
    decreases s.len(),
{
    lemma_last_line_start(s);
    let at = last_line_start(s);
    let line = s.subrange(at, s.len() as int);
    if !blank(line) {
        let i = choose|i: int| 0 <= i < line.len() && !whitespace(#[trigger] line[i]);
        assert(!whitespace(s[at + i]));
        lemma_trimming_leaves_the_core(line);
        let (a, b) = choose|a: int, b: int| #[trigger] is_core(trim(line), line, a, b);
        assert(a < b);
        let (from, to) = (at + a, at + b);
        assert(last_line(s) =~= s.subrange(from, to));
        assert forall|k: int| at <= k < to implies #[trigger] s[k] != '\n' by {}
        assert forall|k: int| at <= k < from implies whitespace(#[trigger] s[k]) by {
            assert(line[k - at] == s[k]);
        }
        assert forall|k: int| to <= k < s.len() implies whitespace(#[trigger] s[k]) by {
            assert(line[k - at] == s[k]);
        }
        assert(line[a] == s[from] && line[b - 1] == s[to - 1]);
        assert(is_last_word(last_line(s), s, at, from, to));
    } else if at == 0 {
        assert(line =~= s);
    } else {
        let front = s.take(at - 1);
        lemma_the_last_line_says_something(front);
        assert forall|k: int| at <= k < s.len() implies whitespace(#[trigger] s[k]) by {
            assert(line[k - at] == s[k]);
        }
        if blank(s) {
            assert forall|i: int| 0 <= i < front.len() implies whitespace(#[trigger] front[i]) by {
                assert(s[i] == front[i]);
            }
        } else {
            let i = choose|i: int| 0 <= i < s.len() && !whitespace(#[trigger] s[i]);
            assert(s[at - 1] == '\n');
            assert(i < at - 1);
            assert(front[i] == s[i]);
            let (l, from, to) = choose|l: int, from: int, to: int| #[trigger]
                is_last_word(last_line(front), front, l, from, to);
            assert(last_line(s) =~= s.subrange(from, to));
            assert forall|k: int| l <= k < to implies #[trigger] s[k] != '\n' by {
                assert(front[k] == s[k]);
            }
            assert forall|k: int| l <= k < from implies whitespace(#[trigger] s[k]) by {
                assert(front[k] == s[k]);
            }
            assert forall|k: int| to <= k < s.len() implies whitespace(#[trigger] s[k]) by {
                if k < at - 1 {
                    assert(front[k] == s[k]);
                }
            }
            assert(front[from] == s[from] && front[to - 1] == s[to - 1]);
            if l > 0 {
                assert(front[l - 1] == s[l - 1]);
            }
            assert(is_last_word(last_line(s), s, l, from, to));
        }
    }
}

proof fn lemma_first_line_from(s: Seq<char>, at: int, k: int)
    requires
        0 <= at <= k < s.len(),
        s[k] == '\n',
        forall|i: int| at <= i < k ==> #[trigger] s[i] != '\n',
    ensures
        first_line_from(s, at) == (if k > 0 && s[k - 1] == '\r' {
            s.take(k - 1)
        } else {
            s.take(k)
        }),
    decreases k - at,
{
    if at < k {
        assert(s[at] != '\n');
        lemma_first_line_from(s, at + 1, k);
    }
}

proof fn lemma_one_line(s: Seq<char>, at: int)
    requires
        0 <= at <= s.len(),
        forall|i: int| at <= i < s.len() ==> #[trigger] s[i] != '\n',
    ensures
        first_line_from(s, at) == s,
    decreases s.len() - at,
{
    if at < s.len() {
        assert(s[at] != '\n');
        lemma_one_line(s, at + 1);
    }
}

/// The first line of a text is what stands before its first line feed, without a carriage return,
/// and all of it where there is no line feed.
pub proof fn lemma_the_first_line_ends_at_a_line_feed(s: Seq<char>, k: int)
    ensures
        0 <= k < s.len() && s[k] == '\n' && (forall|i: int| 0 <= i < k ==> #[trigger] s[i] != '\n')
            ==> first_line(s) == (if k > 0 && s[k - 1] == '\r' {
            s.take(k - 1)
        } else {
            s.take(k)
        }),
        (forall|i: int| 0 <= i < s.len() ==> #[trigger] s[i] != '\n') ==> first_line(s) == s,
{
    if 0 <= k < s.len() && s[k] == '\n' && (forall|i: int| 0 <= i < k ==> #[trigger] s[i] != '\n') {
        lemma_first_line_from(s, 0, k);
    }
    if forall|i: int| 0 <= i < s.len() ==> #[trigger] s[i] != '\n' {
        lemma_one_line(s, 0);
    }
}

/// A text that is cut to size is its own beginning.
pub proof fn lemma_a_cut_text_is_its_beginning(s: Seq<char>, n: int, i: int)
    requires
        0 <= n,
    ensures
        clip(s, n).len() == (if s.len() < n {
            s.len() as int
        } else {
            n
        }),
        0 <= i < clip(s, n).len() ==> clip(s, n)[i] == s[i],
{
}

// ---- hashes ----

/// A hash takes its bytes in order, and for each is combined with it and multiplied by the prime
/// of the FNV hashes.
pub proof fn lemma_a_hash_takes_byte_after_byte(bytes: Seq<u8>, next: u8, hash: u64)
    ensures
        hash_of(Seq::empty(), hash) == hash,
        hash_of(bytes.push(next), hash) == u64::wrapping_mul(
            hash_of(bytes, hash) ^ (next as u64),
            1099511628211,
        ),
{
    assert(bytes.push(next).drop_last() =~= bytes);
}

/// A folded hash is its two halves combined.
pub proof fn lemma_a_folded_hash_is_its_halves(hash: u64)
    ensures
        folded(hash) == ((hash / 0x1_0000_0000) ^ (hash % 0x1_0000_0000)),
{
    assert(((hash ^ (hash >> 32)) as u32) as u64 == ((hash / 0x1_0000_0000) ^ (hash
        % 0x1_0000_0000))) by (bit_vector);
}

} // verus!
