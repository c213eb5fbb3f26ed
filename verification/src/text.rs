//! Text as the rest of the library needs it: numbers in decimal and hexadecimal, lists joined
//! by a separator, lines trimmed to what a reader wants to see, and names put in order.
//!
//! Everything is stated over `Seq<char>`, the view of a string.

use vstd::prelude::*;

verus! {

/// `String::push` appends one character and leaves the rest alone.
pub assume_specification[ std::string::String::push ](s: &mut std::string::String, c: char)
    ensures
        final(s)@ == old(s)@.push(c),
;

/// Whether a character has Unicode's `White_Space` property.
pub open spec fn whitespace(c: char) -> bool {
    ||| '\t' <= c <= '\r'
    ||| c == ' '
    ||| c == '\u{85}'
    ||| c == '\u{a0}'
    ||| c == '\u{1680}'
    ||| '\u{2000}' <= c <= '\u{200a}'
    ||| c == '\u{2028}'
    ||| c == '\u{2029}'
    ||| c == '\u{202f}'
    ||| c == '\u{205f}'
    ||| c == '\u{3000}'
}

/// Whether a character has Unicode's `White_Space` property.
pub fn is_whitespace(c: char) -> (r: bool)
    ensures
        r == whitespace(c),
{
    ('\t' <= c && c <= '\r') || c == ' ' || c == '\u{85}' || c == '\u{a0}' || c == '\u{1680}' || (
    '\u{2000}' <= c && c <= '\u{200a}') || c == '\u{2028}' || c == '\u{2029}' || c == '\u{202f}' || c
        == '\u{205f}' || c == '\u{3000}'
}

/// A string in quotes with its special characters escaped, as `str`'s `Debug` form writes it.
pub uninterp spec fn quoted_text(s: Seq<char>) -> Seq<char>;

/// The `Debug` form of a string, a function of the string alone, named [`quoted_text`].
#[verifier::external_body]
pub(crate) fn quoted(s: &str) -> (r: String)
    ensures
        r@ == quoted_text(s@),
{
    format!("{s:?}")
}

/// A string in lower case, by Unicode's case mapping.
pub uninterp spec fn lowercase_text(s: Seq<char>) -> Seq<char>;

/// `str::to_lowercase`, a function of the string alone, named [`lowercase_text`].
#[verifier::external_body]
pub(crate) fn lowercase(s: &str) -> (r: String)
    ensures
        r@ == lowercase_text(s@),
{
    s.to_lowercase()
}

/// Whether two strings hold the same characters.
pub fn same_text(a: &str, b: &str) -> (r: bool)
    ensures
        r == (a@ == b@),
{
    a.to_owned() == b.to_owned()
}

/// The characters of a string.
pub fn chars_of(s: &str) -> (r: Vec<char>)
    ensures
        r@ == s@,
{
    let mut out: Vec<char> = Vec::new();
    for c in it: s.chars()
        invariant
            it.seq() == s@,
            out@ == s@.take(it.index() as int),
    {
        out.push(c);
        assert(out@ =~= s@.take(it.index() + 1));
    }
    assert(s@.take(s@.len() as int) =~= s@);
    out
}

/// The string with the given characters.
pub fn string_of(chars: &Vec<char>) -> (r: String)
    ensures
        r@ == chars@,
{
    let mut out: String = String::new();
    let mut i: usize = 0;
    while i < chars.len()
        invariant
            i <= chars.len(),
            out@ == chars@.take(i as int),
        decreases chars.len() - i,
    {
        out.push(chars[i]);
        assert(chars@.take(i + 1) =~= chars@.take(i as int).push(chars@[i as int]));
        i += 1;
    }
    assert(chars@.take(chars@.len() as int) =~= chars@);
    out
}

// ---- numbers ----

/// The digit for a value below sixteen.
pub open spec fn digit_char(d: nat) -> char {
    if d == 0 { '0' }
    else if d == 1 { '1' }
    else if d == 2 { '2' }
    else if d == 3 { '3' }
    else if d == 4 { '4' }
    else if d == 5 { '5' }
    else if d == 6 { '6' }
    else if d == 7 { '7' }
    else if d == 8 { '8' }
    else if d == 9 { '9' }
    else if d == 10 { 'a' }
    else if d == 11 { 'b' }
    else if d == 12 { 'c' }
    else if d == 13 { 'd' }
    else if d == 14 { 'e' }
    else { 'f' }
}

fn digit(d: u64) -> (r: char)
    requires
        d < 16,
    ensures
        r == digit_char(d as nat),
{
    match d {
        0 => '0',
        1 => '1',
        2 => '2',
        3 => '3',
        4 => '4',
        5 => '5',
        6 => '6',
        7 => '7',
        8 => '8',
        9 => '9',
        10 => 'a',
        11 => 'b',
        12 => 'c',
        13 => 'd',
        14 => 'e',
        _ => 'f',
    }
}

/// A number written in the given base, most significant digit first and no leading zeros.
pub open spec fn digits_text(n: nat, base: nat) -> Seq<char>
    decreases n,
{
    if base < 2 || n < base {
        seq![digit_char(n)]
    } else {
        proof {
            assert(n / base < n) by (nonlinear_arith)
                requires
                    2 <= base <= n,
            ;
        }
        digits_text(n / base, base).push(digit_char(n % base))
    }
}

proof fn lemma_digit_chars_differ(a: nat, b: nat)
    requires
        a < 16,
        b < 16,
        digit_char(a) == digit_char(b),
    ensures
        a == b,
{
}

/// Numbers that are written alike in one base are the same.
pub proof fn lemma_digits_tell_numbers_apart(n: nat, m: nat, base: nat)
    requires
        2 <= base <= 16,
        digits_text(n, base) == digits_text(m, base),
    ensures
        n == m,
    decreases n,
{
    let s = digits_text(n, base);
    let t = digits_text(m, base);
    lemma_digits_are_digits(n, base);
    lemma_digits_are_digits(m, base);
    lemma_digits_are_digits(n / base, base);
    lemma_digits_are_digits(m / base, base);
    assert(s.last() == t.last());
    if n < base {
        if m >= base {
            assert(t.len() == digits_text(m / base, base).len() + 1);
        } else {
            lemma_digit_chars_differ(n, m);
        }
    } else if m < base {
        assert(s.len() == digits_text(n / base, base).len() + 1);
    } else {
        assert(s.drop_last() =~= digits_text(n / base, base));
        assert(t.drop_last() =~= digits_text(m / base, base));
        assert(n / base < n && n % base < base && m % base < base && n == base * (n / base) + n % base
            && m == base * (m / base) + m % base) by (nonlinear_arith)
            requires
                2 <= base <= n,
        ;
        lemma_digit_chars_differ(n % base, m % base);
        lemma_digits_tell_numbers_apart(n / base, m / base, base);
    }
}

/// A number is written in at least one digit, and in digits only.
pub proof fn lemma_digits_are_digits(n: nat, base: nat)
    requires
        2 <= base <= 16,
    ensures
        digits_text(n, base).len() >= 1,
        forall|i: int|
            0 <= i < digits_text(n, base).len() ==> {
                let c = #[trigger] digits_text(n, base)[i];
                '0' <= c <= '9' || 'a' <= c <= 'f'
            },
    decreases n,
{
    if n >= base {
        assert(n / base < n && n % base < base) by (nonlinear_arith)
            requires
                2 <= base <= n,
        ;
        lemma_digits_are_digits(n / base, base);
        let s = digits_text(n, base);
        let front = digits_text(n / base, base);
        assert forall|i: int| 0 <= i < s.len() implies {
            let c = #[trigger] s[i];
            '0' <= c <= '9' || 'a' <= c <= 'f'
        } by {
            if i < front.len() {
                assert(s[i] == front[i]);
            } else {
                assert(s[i] == digit_char(n % base));
            }
        }
    }
}

/// A natural number in decimal.
pub open spec fn decimal_text(n: nat) -> Seq<char> {
    digits_text(n, 10)
}

/// An integer in decimal, with a minus sign when it is negative.
pub open spec fn integer_text(n: int) -> Seq<char> {
    if n < 0 {
        seq!['-'] + decimal_text((-n) as nat)
    } else {
        decimal_text(n as nat)
    }
}

/// Integers that are written alike are the same.
pub proof fn lemma_integers_are_told_apart(a: int, b: int)
    requires
        integer_text(a) == integer_text(b),
    ensures
        a == b,
{
    let x = if a < 0 { (-a) as nat } else { a as nat };
    let y = if b < 0 { (-b) as nat } else { b as nat };
    lemma_digits_are_digits(x, 10);
    lemma_digits_are_digits(y, 10);
    let s = integer_text(a);
    let t = integer_text(b);
    assert(s[0] == t[0]);
    if a < 0 {
        assert(s.skip(1) =~= decimal_text(x));
        assert(s[0] == '-');
    } else {
        assert(s[0] == decimal_text(x)[0]);
    }
    if b < 0 {
        assert(t.skip(1) =~= decimal_text(y));
        assert(t[0] == '-');
    } else {
        assert(t[0] == decimal_text(y)[0]);
    }
    lemma_digits_tell_numbers_apart(x, y, 10);
}

/// A natural number in lower-case hexadecimal, filled with zeros on the left up to `width`.
pub open spec fn hex_text(n: nat, width: nat) -> Seq<char> {
    let digits = digits_text(n, 16);
    if digits.len() < width {
        Seq::new((width - digits.len()) as nat, |i: int| '0') + digits
    } else {
        digits
    }
}

fn digits(n: u64, base: u64) -> (r: String)
    requires
        2 <= base <= 16,
    ensures
        r@ == digits_text(n as nat, base as nat),
        r@.len() >= 1,
    decreases n,
{
    if n < base {
        let mut s: String = String::new();
        s.push(digit(n));
        assert(s@ =~= seq![digit_char(n as nat)]);
        s
    } else {
        assert(n / base < n && n % base < base) by (nonlinear_arith)
            requires
                2 <= base <= n,
        ;
        let mut s: String = digits(n / base, base);
        s.push(digit(n % base));
        s
    }
}

/// A natural number in decimal.
pub fn decimal(n: u64) -> (r: String)
    ensures
        r@ == decimal_text(n as nat),
{
    digits(n, 10)
}

/// A natural number of any width in decimal.
pub fn decimal_wide(n: u128) -> (r: String)
    ensures
        r@ == decimal_text(n as nat),
    decreases n,
{
    if n <= u64::MAX as u128 {
        decimal(n as u64)
    } else {
        let mut s: String = decimal_wide(n / 10);
        s.push(digit((n % 10) as u64));
        s
    }
}

/// An integer in decimal.
pub fn integer(n: i64) -> (r: String)
    ensures
        r@ == integer_text(n as int),
{
    if n < 0 {
        let magnitude: u64 = (-(n as i128)) as u64;
        let mut s: String = String::new();
        s.push('-');
        let tail: String = decimal(magnitude);
        s.append(tail.as_str());
        assert(s@ =~= seq!['-'] + decimal_text(magnitude as nat));
        s
    } else {
        decimal(n as u64)
    }
}

/// A natural number in lower-case hexadecimal, filled with zeros on the left up to `width`.
pub fn hex(n: u64, width: usize) -> (r: String)
    ensures
        r@ == hex_text(n as nat, width as nat),
{
    let tail: String = digits(n, 16);
    let length: usize = chars_of(tail.as_str()).len();
    if length < width {
        let mut s: String = String::new();
        let mut i: usize = 0;
        let ghost missing = (width - length) as nat;
        while i < width - length
            invariant
                length < width,
                i <= width - length,
                s@ == Seq::new(i as nat, |i: int| '0'),
            decreases width - length - i,
        {
            s.push('0');
            i += 1;
            assert(s@ =~= Seq::new(i as nat, |i: int| '0'));
        }
        s.append(tail.as_str());
        s
    } else {
        tail
    }
}

// ---- lists ----

/// The views of a sequence of strings.
pub open spec fn texts(v: Seq<String>) -> Seq<Seq<char>> {
    Seq::new(v.len(), |i: int| v[i]@)
}

/// Texts joined by a separator.
pub open spec fn join_text(parts: Seq<Seq<char>>, sep: Seq<char>) -> Seq<char>
    decreases parts.len(),
{
    if parts.len() == 0 {
        Seq::empty()
    } else if parts.len() == 1 {
        parts[0]
    } else {
        join_text(parts.drop_last(), sep) + sep + parts.last()
    }
}

/// Whether a text stands somewhere in another.
pub open spec fn stands_in(part: Seq<char>, whole: Seq<char>) -> bool {
    exists|before: Seq<char>, after: Seq<char>| whole == #[trigger] (before + part + after)
}

/// A text that stands in a part of another stands in the other.
pub proof fn lemma_stands_in_a_part(
    part: Seq<char>,
    before: Seq<char>,
    middle: Seq<char>,
    after: Seq<char>,
)
    requires
        stands_in(part, middle),
    ensures
        stands_in(part, before + middle + after),
{
    let (b, a) = choose|b: Seq<char>, a: Seq<char>| middle == #[trigger] (b + part + a);
    assert(before + middle + after =~= (before + b) + part + (a + after));
}

/// Every part stands in what is joined.
pub proof fn lemma_parts_stand_in_the_joined(parts: Seq<Seq<char>>, sep: Seq<char>, k: int)
    requires
        0 <= k < parts.len(),
    ensures
        stands_in(parts[k], join_text(parts, sep)),
    decreases parts.len(),
{
    if parts.len() == 1 {
        assert(parts[0] =~= Seq::empty() + parts[0] + Seq::empty());
    } else {
        let front = join_text(parts.drop_last(), sep);
        if k < parts.len() - 1 {
            lemma_parts_stand_in_the_joined(parts.drop_last(), sep, k);
            assert(parts.drop_last()[k] == parts[k]);
            lemma_stands_in_a_part(parts[k], Seq::empty(), front, sep + parts.last());
            assert(Seq::<char>::empty() + front + (sep + parts.last()) =~= join_text(parts, sep));
        } else {
            assert(join_text(parts, sep) =~= (front + sep) + parts[k] + Seq::empty());
        }
    }
}

/// Strings joined by a separator.
pub fn join(parts: &Vec<String>, sep: &str) -> (r: String)
    ensures
        r@ == join_text(texts(parts@), sep@),
{
    let mut out: String = String::new();
    let mut i: usize = 0;
    while i < parts.len()
        invariant
            i <= parts.len(),
            out@ == join_text(texts(parts@).take(i as int), sep@),
        decreases parts.len() - i,
    {
        let ghost next = texts(parts@).take(i + 1);
        assert(next.drop_last() =~= texts(parts@).take(i as int));
        if i > 0 {
            out.append(sep);
        }
        out.append(parts[i].as_str());
        assert(out@ =~= join_text(next, sep@));
        i += 1;
    }
    assert(texts(parts@).take(parts@.len() as int) =~= texts(parts@));
    out
}

/// A list of integers in brackets, separated by commas.
pub open spec fn integers_text(v: Seq<i64>) -> Seq<char> {
    seq!['['] + join_text(Seq::new(v.len(), |i: int| integer_text(v[i] as int)), seq![',', ' '])
        + seq![']']
}

/// A list of integers in brackets, separated by commas.
pub fn integers(v: &Vec<i64>) -> (r: String)
    ensures
        r@ == integers_text(v@),
{
    let mut parts: Vec<String> = Vec::new();
    let mut i: usize = 0;
    while i < v.len()
        invariant
            i <= v.len(),
            parts.len() == i,
            forall|k: int| 0 <= k < i ==> (#[trigger] parts@[k])@ == integer_text(v@[k] as int),
        decreases v.len() - i,
    {
        parts.push(integer(v[i]));
        i += 1;
    }
    proof {
        reveal_strlit(", ");
    }
    assert(texts(parts@) =~= Seq::new(v@.len(), |i: int| integer_text(v@[i] as int)));
    assert(", "@ =~= seq![',', ' ']);
    let body: String = join(&parts, ", ");
    let mut out: String = String::new();
    out.push('[');
    out.append(body.as_str());
    out.push(']');
    assert(out@ =~= integers_text(v@));
    out
}

// ---- search ----

/// Whether a text holds another at a position.
pub open spec fn holds_at(s: Seq<char>, part: Seq<char>, at: int) -> bool {
    0 <= at && at + part.len() <= s.len() && s.subrange(at, at + part.len()) == part
}

/// Whether a text holds another somewhere.
pub open spec fn holds_text(s: Seq<char>, part: Seq<char>) -> bool {
    exists|at: int| #[trigger] holds_at(s, part, at)
}

/// Whether `s` holds `part` at a position.
fn matches_at(s: &Vec<char>, part: &Vec<char>, at: usize) -> (r: bool)
    requires
        at <= s.len(),
    ensures
        r == holds_at(s@, part@, at as int),
{
    if s.len() - at < part.len() {
        return false;
    }
    let mut i: usize = 0;
    while i < part.len()
        invariant
            i <= part.len(),
            at + part.len() <= s.len(),
            forall|k: int| 0 <= k < i ==> s@[at + k] == #[trigger] part@[k],
        decreases part.len() - i,
    {
        if s[at + i] != part[i] {
            assert(s@.subrange(at as int, at + part@.len())[i as int] != part@[i as int]);
            return false;
        }
        i += 1;
    }
    assert(s@.subrange(at as int, at + part@.len()) =~= part@);
    true
}

/// Whether a string holds another somewhere.
pub fn contains_text(s: &str, part: &str) -> (r: bool)
    ensures
        r == holds_text(s@, part@),
{
    let whole: Vec<char> = chars_of(s);
    let piece: Vec<char> = chars_of(part);
    let mut at: usize = 0;
    while at <= whole.len()
        invariant
            at <= whole.len() + 1,
            whole@ == s@,
            piece@ == part@,
            forall|k: int| 0 <= k < at ==> !#[trigger] holds_at(s@, part@, k),
        decreases whole.len() + 1 - at,
    {
        if matches_at(&whole, &piece, at) {
            return true;
        }
        if at == whole.len() {
            return false;
        }
        at += 1;
    }
    false
}

// ---- lines ----

/// Whether every character is white space.
pub open spec fn blank(s: Seq<char>) -> bool {
    forall|i: int| 0 <= i < s.len() ==> whitespace(#[trigger] s[i])
}

/// A text without the white space at its end.
pub open spec fn trim_end(s: Seq<char>) -> Seq<char>
    decreases s.len(),
{
    if s.len() == 0 || !whitespace(s.last()) {
        s
    } else {
        trim_end(s.drop_last())
    }
}

/// A text without the white space at its start.
pub open spec fn trim_start(s: Seq<char>) -> Seq<char>
    decreases s.len(),
{
    if s.len() == 0 || !whitespace(s[0]) {
        s
    } else {
        trim_start(s.skip(1))
    }
}

/// A text without the white space at either end.
pub open spec fn trim(s: Seq<char>) -> Seq<char> {
    trim_start(trim_end(s))
}

/// Where the last line of a text begins: after its last line feed.
pub open spec fn last_line_start(s: Seq<char>) -> int
    decreases s.len(),
{
    if s.len() == 0 {
        0
    } else if s.last() == '\n' {
        s.len() as int
    } else {
        last_line_start(s.drop_last())
    }
}

pub proof fn lemma_last_line_start(s: Seq<char>)
    ensures
        0 <= last_line_start(s) <= s.len(),
        last_line_start(s) > 0 ==> s[last_line_start(s) - 1] == '\n',
        forall|k: int| last_line_start(s) <= k < s.len() ==> s[k] != '\n',
    decreases s.len(),
{
    if s.len() > 0 && s.last() != '\n' {
        lemma_last_line_start(s.drop_last());
        assert forall|k: int| last_line_start(s) <= k < s.len() implies s[k] != '\n' by {
            if k < s.len() - 1 {
                assert(s.drop_last()[k] == s[k]);
            }
        }
    }
}

/// The last line that is not blank, trimmed; empty when every line is blank.
pub open spec fn last_line(s: Seq<char>) -> Seq<char>
    decreases s.len(),
    via last_line_decreases
{
    let at = last_line_start(s);
    let line = s.subrange(at, s.len() as int);
    if !blank(line) {
        trim(line)
    } else if at == 0 {
        Seq::empty()
    } else {
        last_line(s.take(at - 1))
    }
}

#[via_fn]
proof fn last_line_decreases(s: Seq<char>) {
    lemma_last_line_start(s);
}

/// The first `n` characters, or all of them.
pub open spec fn clip(s: Seq<char>, n: int) -> Seq<char> {
    if s.len() <= n {
        s
    } else {
        s.take(n)
    }
}

/// The first line of a text, without its line ending.
pub open spec fn first_line(s: Seq<char>) -> Seq<char> {
    first_line_from(s, 0)
}

/// The first line of a text that holds no line feed before position `at`.
pub open spec fn first_line_from(s: Seq<char>, at: int) -> Seq<char>
    decreases s.len() - at,
{
    if at < 0 || at >= s.len() {
        s
    } else if s[at] == '\n' {
        if at > 0 && s[at - 1] == '\r' {
            s.take(at - 1)
        } else {
            s.take(at)
        }
    } else {
        first_line_from(s, at + 1)
    }
}

fn is_blank(s: &Vec<char>, from: usize, to: usize) -> (r: bool)
    requires
        from <= to <= s.len(),
    ensures
        r == blank(s@.subrange(from as int, to as int)),
{
    let ghost line = s@.subrange(from as int, to as int);
    let mut i: usize = from;
    while i < to
        invariant
            from <= i <= to <= s.len(),
            line == s@.subrange(from as int, to as int),
            forall|k: int| 0 <= k < i - from ==> whitespace(#[trigger] line[k]),
        decreases to - i,
    {
        if !is_whitespace(s[i]) {
            assert(!whitespace(line[i - from]));
            return false;
        }
        i += 1;
    }
    true
}

/// The characters of `s` between two positions, trimmed at both ends and cut after `limit`.
fn trimmed(s: &Vec<char>, from: usize, to: usize, limit: usize) -> (r: String)
    requires
        from <= to <= s.len(),
    ensures
        r@ == clip(trim(s@.subrange(from as int, to as int)), limit as int),
{
    let ghost line = s@.subrange(from as int, to as int);
    let mut end: usize = to;
    while end > from && is_whitespace(s[end - 1])
        invariant
            from <= end <= to <= s.len(),
            trim_end(s@.subrange(from as int, end as int)) == trim_end(line),
        ensures
            trim_end(line) == s@.subrange(from as int, end as int),
        decreases end,
    {
        assert(s@.subrange(from as int, end as int).drop_last() =~= s@.subrange(
            from as int,
            end - 1,
        ));
        end -= 1;
    }
    let ghost cut = s@.subrange(from as int, end as int);
    let mut start: usize = from;
    assert(s@.subrange(start as int, end as int) =~= cut);
    while start < end && is_whitespace(s[start])
        invariant
            from <= start <= end <= s.len(),
            trim_start(s@.subrange(start as int, end as int)) == trim_start(cut),
        ensures
            trim_start(cut) == s@.subrange(start as int, end as int),
        decreases end - start,
    {
        assert(s@.subrange(start as int, end as int).skip(1) =~= s@.subrange(
            start + 1,
            end as int,
        ));
        start += 1;
    }
    let stop: usize = if end - start <= limit { end } else { start + limit };
    let mut out: String = String::new();
    let mut i: usize = start;
    while i < stop
        invariant
            start <= i <= stop <= s.len(),
            out@ == s@.subrange(start as int, i as int),
        decreases stop - i,
    {
        out.push(s[i]);
        assert(s@.subrange(start as int, i + 1) =~= s@.subrange(start as int, i as int).push(
            s@[i as int],
        ));
        i += 1;
    }
    assert(s@.subrange(start as int, end as int).take(stop - start) =~= s@.subrange(
        start as int,
        stop as int,
    ));
    assert(out@ =~= clip(trim(line), limit as int));
    out
}

/// The last line that is not blank, trimmed and cut after `limit` characters.
pub fn last_line_clipped(text: &str, limit: usize) -> (r: String)
    ensures
        r@ == clip(last_line(text@), limit as int),
{
    let s: Vec<char> = chars_of(text);
    let mut end: usize = s.len();
    assert(s@.take(end as int) =~= s@);
    loop
        invariant
            end <= s.len(),
            last_line(s@.take(end as int)) == last_line(s@),
            s@ == text@,
        decreases end,
    {
        let ghost here = s@.take(end as int);
        proof {
            lemma_last_line_start(here);
        }
        let mut at: usize = end;
        assert(here.take(end as int) =~= here);
        while at > 0 && s[at - 1] != '\n'
            invariant
                at <= end <= s.len(),
                here == s@.take(end as int),
                last_line_start(here.take(at as int)) == last_line_start(here),
            ensures
                at == last_line_start(here),
            decreases at,
        {
            assert(here.take(at as int).drop_last() =~= here.take(at - 1));
            at -= 1;
        }
        assert(s@.subrange(at as int, end as int) =~= here.subrange(at as int, here.len() as int));
        if !is_blank(&s, at, end) {
            return trimmed(&s, at, end, limit);
        }
        if at == 0 {
            return String::new();
        }
        assert(here.take(at - 1) =~= s@.take(at - 1));
        end = at - 1;
    }
}

/// The first line of a text, without its line ending.
pub fn first_line_of(text: &str) -> (r: String)
    ensures
        r@ == first_line(text@),
{
    let s: Vec<char> = chars_of(text);
    let mut at: usize = 0;
    while at < s.len() && s[at] != '\n'
        invariant
            at <= s.len(),
            s@ == text@,
            first_line_from(s@, at as int) == first_line(s@),
        decreases s.len() - at,
    {
        at += 1;
    }
    let stop: usize = if at < s.len() && at > 0 && s[at - 1] == '\r' { at - 1 } else { at };
    let mut out: Vec<char> = Vec::new();
    let mut i: usize = 0;
    while i < stop
        invariant
            i <= stop <= s.len(),
            out@ == s@.take(i as int),
        decreases stop - i,
    {
        out.push(s[i]);
        assert(s@.take(i + 1) =~= s@.take(i as int).push(s@[i as int]));
        i += 1;
    }
    assert(s@.take(s@.len() as int) =~= s@);
    string_of(&out)
}

/// The first line of a text, trimmed.
pub fn first_line_trimmed(text: &str) -> (r: String)
    ensures
        r@ == trim(first_line(text@)),
{
    let line: String = first_line_of(text);
    let s: Vec<char> = chars_of(line.as_str());
    assert(s@.subrange(0, s@.len() as int) =~= s@);
    let n: usize = s.len();
    proof {
        lemma_trim_len(s@);
    }
    trimmed(&s, 0, n, n)
}

proof fn lemma_trim_end_len(s: Seq<char>)
    ensures
        trim_end(s).len() <= s.len(),
    decreases s.len(),
{
    if s.len() > 0 && whitespace(s.last()) {
        lemma_trim_end_len(s.drop_last());
    }
}

proof fn lemma_trim_start_len(s: Seq<char>)
    ensures
        trim_start(s).len() <= s.len(),
    decreases s.len(),
{
    if s.len() > 0 && whitespace(s[0]) {
        lemma_trim_start_len(s.skip(1));
    }
}

proof fn lemma_trim_len(s: Seq<char>)
    ensures
        trim(s).len() <= s.len(),
{
    lemma_trim_end_len(s);
    lemma_trim_start_len(trim_end(s));
}

} // verus!
