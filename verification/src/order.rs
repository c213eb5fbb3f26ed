//! Orders that reports rely on: names by their characters, integers by their value.
//!
//! A report that depends on the order in which things were found says something about the run
//! rather than about the runtimes, so lists are sorted before they are written down. Sorting is
//! specified by `Seq::sort_by`, and [`lemma_sorting_forgets_the_order`] states what that buys:
//! two lists with the same members sort to the same list.

use vstd::prelude::*;
use vstd::relations::*;

use crate::text::{chars_of, same_text, texts};

verus! {

// ---- names ----

/// Lexicographic order on texts, by code point.
pub open spec fn text_le(a: Seq<char>, b: Seq<char>) -> bool
    decreases a.len(),
{
    if a.len() == 0 {
        true
    } else if b.len() == 0 {
        false
    } else if a[0] != b[0] {
        (a[0] as int) < (b[0] as int)
    } else {
        text_le(a.skip(1), b.skip(1))
    }
}

/// [`text_le`] as a relation.
pub open spec fn text_order() -> spec_fn(Seq<char>, Seq<char>) -> bool {
    |a: Seq<char>, b: Seq<char>| text_le(a, b)
}

proof fn lemma_text_reflexive(a: Seq<char>)
    ensures
        text_le(a, a),
    decreases a.len(),
{
    if a.len() > 0 {
        lemma_text_reflexive(a.skip(1));
    }
}

proof fn lemma_text_total(a: Seq<char>, b: Seq<char>)
    ensures
        text_le(a, b) || text_le(b, a),
    decreases a.len(),
{
    if a.len() > 0 && b.len() > 0 {
        lemma_text_total(a.skip(1), b.skip(1));
        assert(a[0] != b[0] ==> (a[0] as int) < (b[0] as int) || (b[0] as int) < (a[0] as int));
    }
}

proof fn lemma_text_antisymmetric(a: Seq<char>, b: Seq<char>)
    requires
        text_le(a, b),
        text_le(b, a),
    ensures
        a == b,
    decreases a.len(),
{
    if a.len() > 0 && b.len() > 0 {
        lemma_text_antisymmetric(a.skip(1), b.skip(1));
        assert(a =~= seq![a[0]] + a.skip(1));
        assert(b =~= seq![b[0]] + b.skip(1));
    } else {
        assert(a =~= b);
    }
}

proof fn lemma_text_transitive(a: Seq<char>, b: Seq<char>, c: Seq<char>)
    requires
        text_le(a, b),
        text_le(b, c),
    ensures
        text_le(a, c),
    decreases a.len(),
{
    if a.len() > 0 && b.len() > 0 && c.len() > 0 && a[0] == b[0] && b[0] == c[0] {
        lemma_text_transitive(a.skip(1), b.skip(1), c.skip(1));
    }
}

/// The order on names is total, so a list of names has one sorted form.
pub proof fn lemma_text_order()
    ensures
        total_ordering(text_order()),
{
    let r = text_order();
    assert forall|x: Seq<char>| #[trigger] r(x, x) by {
        lemma_text_reflexive(x);
    }
    assert forall|x: Seq<char>, y: Seq<char>| #[trigger] r(x, y) && #[trigger] r(y, x) implies x
        == y by {
        lemma_text_antisymmetric(x, y);
    }
    assert forall|x: Seq<char>, y: Seq<char>, z: Seq<char>| #[trigger]
        r(x, y) && #[trigger] r(y, z) implies r(x, z) by {
        lemma_text_transitive(x, y, z);
    }
    assert forall|x: Seq<char>, y: Seq<char>| #[trigger] r(x, y) || #[trigger] r(y, x) by {
        lemma_text_total(x, y);
    }
}

/// Whether one string comes at or before another.
pub fn at_most(a: &str, b: &str) -> (r: bool)
    ensures
        r == text_le(a@, b@),
{
    let x: Vec<char> = chars_of(a);
    let y: Vec<char> = chars_of(b);
    let mut i: usize = 0;
    assert(x@.skip(0) =~= x@);
    assert(y@.skip(0) =~= y@);
    while i < x.len() && i < y.len() && x[i] == y[i]
        invariant
            i <= x.len(),
            i <= y.len(),
            x@ == a@,
            y@ == b@,
            text_le(x@.skip(i as int), y@.skip(i as int)) == text_le(a@, b@),
        decreases x.len() - i,
    {
        assert(x@.skip(i as int).skip(1) =~= x@.skip(i + 1));
        assert(y@.skip(i as int).skip(1) =~= y@.skip(i + 1));
        i += 1;
    }
    if i == x.len() {
        true
    } else if i == y.len() {
        false
    } else {
        let c: char = x[i];
        let d: char = y[i];
        c < d
    }
}

/// Names in order.
pub open spec fn sort_texts(s: Seq<Seq<char>>) -> Seq<Seq<char>> {
    s.sort_by(text_order())
}

/// Two lists of names with the same members sort to the same list.
pub proof fn lemma_sorting_forgets_the_order(a: Seq<Seq<char>>, b: Seq<Seq<char>>)
    requires
        a.to_multiset() == b.to_multiset(),
    ensures
        sort_texts(a) == sort_texts(b),
{
    lemma_text_order();
    a.lemma_sort_by_ensures(text_order());
    b.lemma_sort_by_ensures(text_order());
    vstd::seq_lib::lemma_sorted_unique(sort_texts(a), sort_texts(b), text_order());
}

/// Picking members by a rule forgets the order: two lists with the same members have the same
/// members among those picked.
pub proof fn lemma_filtering_forgets_the_order<T>(a: Seq<T>, b: Seq<T>, f: spec_fn(T) -> bool)
    requires
        a.to_multiset() == b.to_multiset(),
    ensures
        a.filter(f).to_multiset() == b.filter(f).to_multiset(),
{
    lemma_filter_to_multiset(a, f);
    lemma_filter_to_multiset(b, f);
}

proof fn lemma_filter_to_multiset<T>(s: Seq<T>, f: spec_fn(T) -> bool)
    ensures
        s.filter(f).to_multiset() == s.to_multiset().filter(f),
    decreases s.len(),
{
    broadcast use vstd::multiset::group_multiset_axioms;

    if s.len() == 0 {
        reveal(Seq::filter);
        assert(s.filter(f) =~= s);
        s.to_multiset_ensures();
        assert(s.to_multiset() =~= s.to_multiset().filter(f));
    } else {
        let front = s.drop_last();
        let x = s.last();
        assert(s =~= front.push(x));
        lemma_filter_to_multiset(front, f);
        front.lemma_filter_push(x, f);
        vstd::seq_lib::to_multiset_build(front, x);
        vstd::seq_lib::to_multiset_build(front.filter(f), x);
        assert(s.filter(f).to_multiset() =~= s.to_multiset().filter(f));
    }
}

/// So does taking something of every member.
pub proof fn lemma_mapping_forgets_the_order<T, U>(a: Seq<T>, b: Seq<T>, f: spec_fn(T) -> U)
    requires
        a.to_multiset() == b.to_multiset(),
    ensures
        Seq::new(a.len(), |i: int| f(a[i])).to_multiset() == Seq::new(
            b.len(),
            |i: int| f(b[i]),
        ).to_multiset(),
    decreases a.len(),
{
    broadcast use vstd::multiset::group_multiset_axioms;

    a.to_multiset_ensures();
    b.to_multiset_ensures();
    let fa = Seq::new(a.len(), |i: int| f(a[i]));
    let fb = Seq::new(b.len(), |i: int| f(b[i]));
    if a.len() == 0 {
        assert(fa =~= fb);
    } else {
        let n = a.len() - 1;
        assert(a.contains(a[n]));
        assert(a.to_multiset().count(a[n]) > 0);
        assert(b.to_multiset().count(a[n]) > 0);
        let k = choose|k: int| 0 <= k < b.len() && b[k] == a[n];
        let ra = a.remove(n);
        let rb = b.remove(k);
        lemma_mapping_forgets_the_order(ra, rb, f);
        let fra = Seq::new(ra.len(), |i: int| f(ra[i]));
        let frb = Seq::new(rb.len(), |i: int| f(rb[i]));
        assert(fra =~= fa.remove(n));
        assert(frb =~= fb.remove(k));
        fa.to_multiset_ensures();
        fb.to_multiset_ensures();
        assert(fa.contains(fa[n]));
        assert(fa.to_multiset().count(fa[n]) > 0);
        assert(fb.contains(fb[k]));
        assert(fb.to_multiset().count(fb[k]) > 0);
        assert(fa.to_multiset() =~= fa.to_multiset().remove(fa[n]).insert(fa[n]));
        assert(fb.to_multiset() =~= fb.to_multiset().remove(fb[k]).insert(fb[k]));
    }
}

/// Strings in order.
pub fn sort_strings(v: &Vec<String>) -> (r: Vec<String>)
    ensures
        texts(r@) == sort_texts(texts(v@)),
{
    proof {
        lemma_text_order();
    }
    let mut out: Vec<String> = Vec::new();
    let mut i: usize = 0;
    assert(texts(out@) =~= texts(v@).take(0));
    while i < v.len()
        invariant
            i <= v.len(),
            total_ordering(text_order()),
            sorted_by(texts(out@), text_order()),
            texts(out@).to_multiset() == texts(v@).take(i as int).to_multiset(),
        decreases v.len() - i,
    {
        let mut j: usize = out.len();
        while j > 0 && !at_most(out[j - 1].as_str(), v[i].as_str())
            invariant
                j <= out.len(),
                i < v.len(),
                forall|k: int| j <= k < out.len() ==> !text_le((#[trigger] out@[k])@, v@[i as int]@),
            ensures
                j <= out.len(),
                j > 0 ==> text_le(out@[j - 1]@, v@[i as int]@),
                forall|k: int| j <= k < out.len() ==> !text_le((#[trigger] out@[k])@, v@[i as int]@),
            decreases j,
        {
            j -= 1;
        }
        let ghost before = texts(out@);
        let ghost x = v@[i as int]@;
        out.insert(j, v[i].clone());
        proof {
            let after = texts(out@);
            let le = text_order();
            assert(after =~= before.insert(j as int, x));
            assert forall|a: int, b: int| 0 <= a < b < after.len() implies #[trigger] le(
                after[a],
                after[b],
            ) by {
                if a < j && b < j {
                    assert(le(before[a], before[b]));
                } else if a < j && b == j {
                    if a < j - 1 {
                        assert(le(before[a], before[j - 1]));
                    }
                    assert(le(before[j - 1], x));
                } else if a < j {
                    assert(le(before[a], before[b - 1]));
                } else if a == j {
                    assert(le(x, before[b - 1]) || le(before[b - 1], x));
                } else {
                    assert(le(before[a - 1], before[b - 1]));
                }
            }
            vstd::seq_lib::to_multiset_insert(before, j as int, x);
            assert(texts(v@).take(i + 1) =~= texts(v@).take(i as int).push(x));
            vstd::seq_lib::to_multiset_build(texts(v@).take(i as int), x);
        }
        i += 1;
    }
    proof {
        assert(texts(v@).take(v@.len() as int) =~= texts(v@));
        texts(v@).lemma_sort_by_ensures(text_order());
        vstd::seq_lib::lemma_sorted_unique(texts(out@), sort_texts(texts(v@)), text_order());
    }
    out
}

// ---- named counts ----

/// Lexicographic order on names with counts: by name, and by count where the names are the same.
pub open spec fn count_le(a: (Seq<char>, usize), b: (Seq<char>, usize)) -> bool {
    if a.0 == b.0 {
        a.1 <= b.1
    } else {
        text_le(a.0, b.0)
    }
}

/// [`count_le`] as a relation.
pub open spec fn count_order() -> spec_fn((Seq<char>, usize), (Seq<char>, usize)) -> bool {
    |a: (Seq<char>, usize), b: (Seq<char>, usize)| count_le(a, b)
}

/// The order on named counts is total.
proof fn lemma_count_order()
    ensures
        total_ordering(count_order()),
{
    let r = count_order();
    assert forall|x: (Seq<char>, usize), y: (Seq<char>, usize)| #[trigger]
        r(x, y) && #[trigger] r(y, x) implies x == y by {
        if x.0 != y.0 {
            lemma_text_antisymmetric(x.0, y.0);
        }
    }
    assert forall|x: (Seq<char>, usize), y: (Seq<char>, usize), z: (Seq<char>, usize)| #[trigger]
        r(x, y) && #[trigger] r(y, z) implies r(x, z) by {
        if x.0 != y.0 && y.0 != z.0 {
            lemma_text_transitive(x.0, y.0, z.0);
            if x.0 == z.0 {
                lemma_text_antisymmetric(x.0, y.0);
            }
        }
    }
    assert forall|x: (Seq<char>, usize), y: (Seq<char>, usize)| #[trigger] r(x, y) || #[trigger] r(
        y,
        x,
    ) by {
        lemma_text_total(x.0, y.0);
    }
}

fn count_at_most(a: &(String, usize), b: &(String, usize)) -> (r: bool)
    ensures
        r == count_le((a.0@, a.1), (b.0@, b.1)),
{
    if same_text(a.0.as_str(), b.0.as_str()) {
        a.1 <= b.1
    } else {
        at_most(a.0.as_str(), b.0.as_str())
    }
}

/// The views of a sequence of named counts.
pub open spec fn counted(v: Seq<(String, usize)>) -> Seq<(Seq<char>, usize)> {
    Seq::new(v.len(), |i: int| (v[i].0@, v[i].1))
}

/// Named counts in order.
pub open spec fn sort_counted(s: Seq<(Seq<char>, usize)>) -> Seq<(Seq<char>, usize)> {
    s.sort_by(count_order())
}

/// Named counts in order.
pub fn sort_named_counts(v: &Vec<(String, usize)>) -> (r: Vec<(String, usize)>)
    ensures
        counted(r@) == sort_counted(counted(v@)),
{
    proof {
        lemma_count_order();
    }
    let mut out: Vec<(String, usize)> = Vec::new();
    let mut i: usize = 0;
    assert(counted(out@) =~= counted(v@).take(0));
    while i < v.len()
        invariant
            i <= v.len(),
            total_ordering(count_order()),
            sorted_by(counted(out@), count_order()),
            counted(out@).to_multiset() == counted(v@).take(i as int).to_multiset(),
        decreases v.len() - i,
    {
        let ghost x = counted(v@)[i as int];
        let mut j: usize = out.len();
        while j > 0 && !count_at_most(&out[j - 1], &v[i])
            invariant
                j <= out.len(),
                i < v.len(),
                x == counted(v@)[i as int],
                forall|k: int| j <= k < out.len() ==> !count_le(#[trigger] counted(out@)[k], x),
            ensures
                j <= out.len(),
                j > 0 ==> count_le(counted(out@)[j - 1], x),
                forall|k: int| j <= k < out.len() ==> !count_le(#[trigger] counted(out@)[k], x),
            decreases j,
        {
            j -= 1;
        }
        let ghost before = counted(out@);
        out.insert(j, (v[i].0.clone(), v[i].1));
        proof {
            let after = counted(out@);
            let le = count_order();
            assert(after =~= before.insert(j as int, x));
            assert forall|a: int, b: int| 0 <= a < b < after.len() implies #[trigger] le(
                after[a],
                after[b],
            ) by {
                if a < j && b < j {
                    assert(le(before[a], before[b]));
                } else if a < j && b == j {
                    if a < j - 1 {
                        assert(le(before[a], before[j - 1]));
                    }
                    assert(le(before[j - 1], x));
                } else if a < j {
                    assert(le(before[a], before[b - 1]));
                } else if a == j {
                    assert(le(x, before[b - 1]) || le(before[b - 1], x));
                } else {
                    assert(le(before[a - 1], before[b - 1]));
                }
            }
            vstd::seq_lib::to_multiset_insert(before, j as int, x);
            assert(counted(v@).take(i + 1) =~= counted(v@).take(i as int).push(x));
            vstd::seq_lib::to_multiset_build(counted(v@).take(i as int), x);
        }
        i += 1;
    }
    proof {
        assert(counted(v@).take(v@.len() as int) =~= counted(v@));
        counted(v@).lemma_sort_by_ensures(count_order());
        vstd::seq_lib::lemma_sorted_unique(counted(out@), sort_counted(counted(v@)), count_order());
    }
    out
}

// ---- integers ----

/// The order on integers as a relation.
pub open spec fn integer_order() -> spec_fn(i64, i64) -> bool {
    |a: i64, b: i64| a <= b
}

/// Integers in order.
pub open spec fn sort_integers(s: Seq<i64>) -> Seq<i64> {
    s.sort_by(integer_order())
}

/// Integers in order.
pub fn sort_i64(v: &Vec<i64>) -> (r: Vec<i64>)
    ensures
        r@ == sort_integers(v@),
{
    let mut out: Vec<i64> = Vec::new();
    let mut i: usize = 0;
    assert(total_ordering(integer_order()));
    assert(out@ =~= v@.take(0));
    while i < v.len()
        invariant
            i <= v.len(),
            total_ordering(integer_order()),
            sorted_by(out@, integer_order()),
            out@.to_multiset() == v@.take(i as int).to_multiset(),
        decreases v.len() - i,
    {
        let mut j: usize = out.len();
        let x: i64 = v[i];
        while j > 0 && out[j - 1] > x
            invariant
                j <= out.len(),
                forall|k: int| j <= k < out.len() ==> #[trigger] out@[k] > x,
            ensures
                j <= out.len(),
                j > 0 ==> out@[j - 1] <= x,
                forall|k: int| j <= k < out.len() ==> #[trigger] out@[k] > x,
            decreases j,
        {
            j -= 1;
        }
        let ghost before = out@;
        out.insert(j, x);
        proof {
            let le = integer_order();
            assert(out@ =~= before.insert(j as int, x));
            assert forall|a: int, b: int| 0 <= a < b < out@.len() implies #[trigger] le(
                out@[a],
                out@[b],
            ) by {
                if a < j && b < j {
                    assert(le(before[a], before[b]));
                } else if a < j && b == j {
                    if a < j - 1 {
                        assert(le(before[a], before[j - 1]));
                    }
                } else if a < j {
                    assert(le(before[a], before[b - 1]));
                } else if a > j {
                    assert(le(before[a - 1], before[b - 1]));
                }
            }
            vstd::seq_lib::to_multiset_insert(before, j as int, x);
            assert(v@.take(i + 1) =~= v@.take(i as int).push(x));
            vstd::seq_lib::to_multiset_build(v@.take(i as int), x);
        }
        i += 1;
    }
    proof {
        assert(v@.take(v@.len() as int) =~= v@);
        v@.lemma_sort_by_ensures(integer_order());
        vstd::seq_lib::lemma_sorted_unique(out@, sort_integers(v@), integer_order());
    }
    out
}

// ---- sets ----

/// The members of a sequence, each once, in the order in which they first occur.
pub open spec fn distinct<T>(s: Seq<T>) -> Seq<T>
    decreases s.len(),
{
    if s.len() == 0 {
        Seq::empty()
    } else {
        let rest = distinct(s.drop_last());
        if rest.contains(s.last()) {
            rest
        } else {
            rest.push(s.last())
        }
    }
}

/// A sequence and its distinct members hold the same things.
pub proof fn lemma_distinct_keeps_the_members<T>(s: Seq<T>, x: T)
    ensures
        distinct(s).contains(x) == s.contains(x),
    decreases s.len(),
{
    if s.len() > 0 {
        let front = s.drop_last();
        lemma_distinct_keeps_the_members(front, x);
        let rest = distinct(front);
        if s.contains(x) {
            let i = choose|i: int| 0 <= i < s.len() && s[i] == x;
            if i < s.len() - 1 {
                assert(front[i] == x);
            }
        }
        if front.contains(x) {
            let i = choose|i: int| 0 <= i < front.len() && front[i] == x;
            assert(s[i] == x);
        }
        if rest.contains(x) {
            let i = choose|i: int| 0 <= i < rest.len() && rest[i] == x;
            assert(distinct(s)[i] == x);
        }
        if x == s.last() {
            assert(s[s.len() - 1] == x);
            if !rest.contains(x) {
                assert(distinct(s)[rest.len() as int] == x);
            }
        }
        if distinct(s).contains(x) {
            let i = choose|i: int| 0 <= i < distinct(s).len() && distinct(s)[i] == x;
            if i < rest.len() {
                assert(rest[i] == x);
            }
        }
    }
}

/// No member of the distinct members of a sequence occurs twice.
pub proof fn lemma_distinct_has_no_duplicates<T>(s: Seq<T>)
    ensures
        distinct(s).no_duplicates(),
        distinct(s).len() <= s.len(),
    decreases s.len(),
{
    if s.len() > 0 {
        lemma_distinct_has_no_duplicates(s.drop_last());
        let rest = distinct(s.drop_last());
        if !rest.contains(s.last()) {
            assert forall|i: int, j: int|
                0 <= i < j < distinct(s).len() implies distinct(s)[i] != distinct(s)[j] by {
                if j == rest.len() {
                    assert(rest.contains(rest[i]));
                }
            }
        }
    }
}

/// Whether a list of names holds a name.
pub fn holds_name(names: &Vec<String>, name: &str) -> (r: bool)
    ensures
        r == texts(names@).contains(name@),
{
    let mut i: usize = 0;
    while i < names.len()
        invariant
            i <= names.len(),
            forall|k: int| 0 <= k < i ==> #[trigger] texts(names@)[k] != name@,
        decreases names.len() - i,
    {
        if crate::text::same_text(names[i].as_str(), name) {
            assert(texts(names@)[i as int] == name@);
            return true;
        }
        i += 1;
    }
    false
}

/// The names of a list, each once, in order.
pub fn name_set(names: &Vec<String>) -> (r: Vec<String>)
    ensures
        texts(r@) == sort_texts(distinct(texts(names@))),
{
    let ghost all = texts(names@);
    let mut out: Vec<String> = Vec::new();
    let mut i: usize = 0;
    assert(texts(out@) =~= distinct(all.take(0)));
    while i < names.len()
        invariant
            i <= names.len(),
            all == texts(names@),
            texts(out@) == distinct(all.take(i as int)),
        decreases names.len() - i,
    {
        assert(all.take(i + 1).drop_last() =~= all.take(i as int));
        assert(all.take(i + 1).last() == names@[i as int]@);
        if !holds_name(&out, names[i].as_str()) {
            let ghost before = out@;
            out.push(names[i].clone());
            assert(texts(out@) =~= texts(before).push(names@[i as int]@));
        }
        i += 1;
    }
    assert(all.take(i as int) =~= all);
    sort_strings(&out)
}

} // verus!
