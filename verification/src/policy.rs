//! The comparison policy as data, so that a stored finding can name the rules it was judged under.
//!
//! A finding says that runtimes disagreed under some set of rules. The rules are code and cannot be
//! recovered from a record, so a record holds a fingerprint of the code that decides. Where that
//! has moved, nothing is claimed under the old rules.

use vstd::prelude::*;

use crate::fingerprint::{
    fingerprint_in, lemma_a_fingerprint_is_read_back, marked_at, marker, recorded,
};
use crate::known::{catalog, is_entry, LegalDifference, Way, ENTRY_COUNT, IDS, WAYS};
pub use crate::fingerprint::POLICY_FINGERPRINT;
use crate::text::{hex, hex_text, join, join_text, lemma_parts_stand_in_the_joined};
use crate::text::{lemma_stands_in_a_part, stands_in, texts, whitespace};

verus! {

/// The identifiers of the first `n` entries that are handled in a way.
pub open spec fn handled_upto(way: Way, n: nat) -> Seq<Seq<char>>
    decreases n,
{
    if n == 0 {
        Seq::empty()
    } else {
        let rest = handled_upto(way, (n - 1) as nat);
        if WAYS[n - 1] == way {
            rest.push(IDS[n - 1]@)
        } else {
            rest
        }
    }
}

/// The identifiers of the entries that are handled in a way, separated by commas.
pub open spec fn handled_text(way: Way) -> Seq<char> {
    join_text(handled_upto(way, 11), ","@)
}

/// The rules in words.
pub open spec fn prose() -> Seq<char> {
    "comparison=bit-exact"@ + " tolerance=none"@ + " nan-vs-nan=agree"@ + " signed-zero=disagree"@
        + " forgiven=["@ + handled_text(Way::Forgiven) + "] declined=["@ + handled_text(Way::Declined)
        + "] excluded=["@ + handled_text(Way::Excluded) + "]"@
}

/// The rules in words, and the fingerprint.
pub open spec fn description() -> Seq<char> {
    prose() + " "@ + "fingerprint="@ + hex_text(POLICY_FINGERPRINT as nat, 8)
}

/// The identifiers of the entries that are handled in a way, separated by commas.
fn handled(entries: &Vec<LegalDifference>, way: Way) -> (r: String)
    requires
        entries.len() == ENTRY_COUNT,
        forall|i: int| 0 <= i < entries.len() ==> is_entry(#[trigger] entries@[i], i),
    ensures
        r@ == handled_text(way),
{
    let mut ids: Vec<String> = Vec::new();
    let mut i: usize = 0;
    assert(texts(ids@) =~= handled_upto(way, 0));
    while i < entries.len()
        invariant
            i <= entries.len(),
            entries.len() == ENTRY_COUNT,
            forall|i: int| 0 <= i < entries.len() ==> is_entry(#[trigger] entries@[i], i),
            texts(ids@) == handled_upto(way, i as nat),
        decreases entries.len() - i,
    {
        assert(is_entry(entries@[i as int], i as int));
        let ghost before = ids@;
        if entries[i].handling.way() == way {
            ids.push(entries[i].id.to_owned());
            assert(texts(ids@) =~= texts(before).push(IDS[i as int]@));
        }
        i += 1;
    }
    join(&ids, ",")
}

/// The rules in force, in words and with their fingerprint. The fingerprint can be read back.
pub fn describe() -> (r: String)
    ensures
        r@ == description(),
        recorded(r@) == Some(POLICY_FINGERPRINT),
{
    let entries: Vec<LegalDifference> = catalog();
    let mut out: String = "comparison=bit-exact".to_owned();
    out.append(" tolerance=none");
    out.append(" nan-vs-nan=agree");
    out.append(" signed-zero=disagree");
    out.append(" forgiven=[");
    out.append(handled(&entries, Way::Forgiven).as_str());
    out.append("] declined=[");
    out.append(handled(&entries, Way::Declined).as_str());
    out.append("] excluded=[");
    out.append(handled(&entries, Way::Excluded).as_str());
    out.append("]");
    assert(out@ =~= prose());
    out.append(" ");
    out.append("fingerprint=");
    out.append(hex(POLICY_FINGERPRINT as u64, 8).as_str());
    proof {
        lemma_the_policy_reads_back();
    }
    out
}

/// The fingerprint that a description carries, if it carries one.
pub fn fingerprint_of(description: &str) -> (r: Option<u32>)
    ensures
        r == recorded(description@),
{
    fingerprint_in(description)
}

/// Whether a description was written under other rules than those in force.
pub open spec fn drifted(description: Seq<char>) -> bool {
    recorded(description) != Some(POLICY_FINGERPRINT)
}

/// Whether the policy has changed since a description was written. A description without a
/// fingerprint counts as changed.
pub fn has_drifted(description: &str) -> (r: bool)
    ensures
        r == drifted(description@),
{
    match fingerprint_of(description) {
        Some(f) => f != POLICY_FINGERPRINT,
        None => true,
    }
}

// ---- laws ----

/// Whether no word can begin with the marker of a fingerprint: every space is followed by two
/// characters with which the marker does not begin.
spec fn calm(s: Seq<char>) -> bool {
    forall|i: int| 0 <= i < s.len() ==> calm_at(s, i)
}

spec fn calm_at(s: Seq<char>, i: int) -> bool {
    whitespace(s[i]) ==> i + 2 < s.len() && !(s[i + 1] == 'f' && s[i + 2] == 'i')
}

spec fn calm_from(s: Seq<char>, i: int) -> bool
    decreases s.len() - i,
{
    i >= s.len() || (calm_at(s, i) && calm_from(s, i + 1))
}

proof fn lemma_calm_from(s: Seq<char>, i: int, k: int)
    requires
        calm_from(s, i),
        i <= k < s.len(),
    ensures
        calm_at(s, k),
    decreases k - i,
{
    if i < k {
        lemma_calm_from(s, i + 1, k);
    }
}

proof fn lemma_calm(s: Seq<char>)
    requires
        calm_from(s, 0),
    ensures
        calm(s),
{
    assert forall|k: int| 0 <= k < s.len() implies calm_at(s, k) by {
        lemma_calm_from(s, 0, k);
    }
}

proof fn lemma_calm_pieces(a: Seq<char>, b: Seq<char>)
    requires
        calm(a),
        calm(b),
    ensures
        calm(a + b),
{
    let s = a + b;
    assert forall|k: int| 0 <= k < s.len() implies calm_at(s, k) by {
        if k < a.len() {
            assert(calm_at(a, k));
        } else {
            assert(calm_at(b, k - a.len()));
        }
    }
}

proof fn lemma_calm_identifiers(i: int)
    requires
        0 <= i < 11,
    ensures
        calm(IDS[i]@),
{
    if i == 0 {
        reveal_strlit("nan-payload");
        assert(calm_from("nan-payload"@, 0)) by {
            reveal_with_fuel(calm_from, 12);
        }
    }
    if i == 1 {
        reveal_strlit("integer-division-by-zero");
        assert(calm_from("integer-division-by-zero"@, 0)) by {
            reveal_with_fuel(calm_from, 25);
        }
    }
    if i == 2 {
        reveal_strlit("max-min-nan");
        assert(calm_from("max-min-nan"@, 0)) by {
            reveal_with_fuel(calm_from, 12);
        }
    }
    if i == 3 {
        reveal_strlit("integer-division-overflow");
        assert(calm_from("integer-division-overflow"@, 0)) by {
            reveal_with_fuel(calm_from, 26);
        }
    }
    if i == 4 {
        reveal_strlit("max-min-signed-zero");
        assert(calm_from("max-min-signed-zero"@, 0)) by {
            reveal_with_fuel(calm_from, 20);
        }
    }
    if i == 5 {
        reveal_strlit("sign-of-nan");
        assert(calm_from("sign-of-nan"@, 0)) by {
            reveal_with_fuel(calm_from, 12);
        }
    }
    if i == 6 {
        reveal_strlit("quantize-non-finite-input");
        assert(calm_from("quantize-non-finite-input"@, 0)) by {
            reveal_with_fuel(calm_from, 26);
        }
    }
    if i == 7 {
        reveal_strlit("dynamic-quantize-empty-input");
        assert(calm_from("dynamic-quantize-empty-input"@, 0)) by {
            reveal_with_fuel(calm_from, 29);
        }
    }
    if i == 8 {
        reveal_strlit("cast-out-of-range");
        assert(calm_from("cast-out-of-range"@, 0)) by {
            reveal_with_fuel(calm_from, 18);
        }
    }
    if i == 9 {
        reveal_strlit("ort-optimization-level");
        assert(calm_from("ort-optimization-level"@, 0)) by {
            reveal_with_fuel(calm_from, 23);
        }
    }
    if i == 10 {
        reveal_strlit("semantic-opset-change");
        assert(calm_from("semantic-opset-change"@, 0)) by {
            reveal_with_fuel(calm_from, 22);
        }
    }
    lemma_calm(IDS[i]@);
}

proof fn lemma_calm_handled(way: Way, n: nat)
    requires
        n <= 11,
    ensures
        forall|k: int| 0 <= k < handled_upto(way, n).len() ==> calm(#[trigger] handled_upto(way, n)[k]),
    decreases n,
{
    if n > 0 {
        lemma_calm_handled(way, (n - 1) as nat);
        lemma_calm_identifiers(n - 1);
        let rest = handled_upto(way, (n - 1) as nat);
        let all = handled_upto(way, n);
        assert forall|k: int| 0 <= k < all.len() implies calm(#[trigger] all[k]) by {
            if k < rest.len() {
                assert(all[k] == rest[k]);
            } else {
                assert(all[k] == IDS[n - 1]@);
            }
        }
    }
}

proof fn lemma_calm_join(parts: Seq<Seq<char>>)
    requires
        forall|k: int| 0 <= k < parts.len() ==> calm(#[trigger] parts[k]),
    ensures
        calm(join_text(parts, ","@)),
    decreases parts.len(),
{
    if parts.len() == 1 {
        assert(calm(parts[0]));
    } else if parts.len() > 1 {
        assert forall|k: int| 0 <= k < parts.drop_last().len() implies calm(
            #[trigger] parts.drop_last()[k],
        ) by {
            assert(calm(parts[k]));
        }
        lemma_calm_join(parts.drop_last());
        reveal_strlit(",");
        assert(calm(","@));
        assert(calm(parts.last()));
        lemma_calm_pieces(join_text(parts.drop_last(), ","@), ","@);
        lemma_calm_pieces(join_text(parts.drop_last(), ","@) + ","@, parts.last());
    }
}

proof fn lemma_calm_prose()
    ensures
        calm(prose()),
        prose().len() > 0,
        prose()[0] == 'c',
{
    reveal_strlit("comparison=bit-exact");
    assert(calm_from("comparison=bit-exact"@, 0)) by {
        reveal_with_fuel(calm_from, 21);
    }
    lemma_calm("comparison=bit-exact"@);
    reveal_strlit(" tolerance=none");
    assert(calm_from(" tolerance=none"@, 0)) by {
        reveal_with_fuel(calm_from, 16);
    }
    lemma_calm(" tolerance=none"@);
    reveal_strlit(" nan-vs-nan=agree");
    assert(calm_from(" nan-vs-nan=agree"@, 0)) by {
        reveal_with_fuel(calm_from, 18);
    }
    lemma_calm(" nan-vs-nan=agree"@);
    reveal_strlit(" signed-zero=disagree");
    assert(calm_from(" signed-zero=disagree"@, 0)) by {
        reveal_with_fuel(calm_from, 22);
    }
    lemma_calm(" signed-zero=disagree"@);
    reveal_strlit(" forgiven=[");
    assert(calm_from(" forgiven=["@, 0)) by {
        reveal_with_fuel(calm_from, 12);
    }
    lemma_calm(" forgiven=["@);
    reveal_strlit("] declined=[");
    assert(calm_from("] declined=["@, 0)) by {
        reveal_with_fuel(calm_from, 13);
    }
    lemma_calm("] declined=["@);
    reveal_strlit("] excluded=[");
    assert(calm_from("] excluded=["@, 0)) by {
        reveal_with_fuel(calm_from, 13);
    }
    lemma_calm("] excluded=["@);
    reveal_strlit("]");
    assert(calm_from("]"@, 0)) by {
        reveal_with_fuel(calm_from, 2);
    }
    lemma_calm("]"@);
    lemma_calm_handled(Way::Forgiven, 11);
    lemma_calm_join(handled_upto(Way::Forgiven, 11));
    lemma_calm_handled(Way::Declined, 11);
    lemma_calm_join(handled_upto(Way::Declined, 11));
    lemma_calm_handled(Way::Excluded, 11);
    lemma_calm_join(handled_upto(Way::Excluded, 11));
    let s0 = "comparison=bit-exact"@;
    lemma_calm_pieces(s0, " tolerance=none"@);
    let s1 = s0 + " tolerance=none"@;
    lemma_calm_pieces(s1, " nan-vs-nan=agree"@);
    let s2 = s1 + " nan-vs-nan=agree"@;
    lemma_calm_pieces(s2, " signed-zero=disagree"@);
    let s3 = s2 + " signed-zero=disagree"@;
    lemma_calm_pieces(s3, " forgiven=["@);
    let s4 = s3 + " forgiven=["@;
    lemma_calm_pieces(s4, handled_text(Way::Forgiven));
    let s5 = s4 + handled_text(Way::Forgiven);
    lemma_calm_pieces(s5, "] declined=["@);
    let s6 = s5 + "] declined=["@;
    lemma_calm_pieces(s6, handled_text(Way::Declined));
    let s7 = s6 + handled_text(Way::Declined);
    lemma_calm_pieces(s7, "] excluded=["@);
    let s8 = s7 + "] excluded=["@;
    lemma_calm_pieces(s8, handled_text(Way::Excluded));
    let s9 = s8 + handled_text(Way::Excluded);
    lemma_calm_pieces(s9, "]"@);
    let s10 = s9 + "]"@;
    assert(prose() == s10);
}

/// The description of the policy gives back the policy's own fingerprint, so that it is never
/// taken to have drifted.
pub proof fn lemma_the_policy_reads_back()
    ensures
        recorded(description()) == Some(POLICY_FINGERPRINT),
        !drifted(description()),
{
    let before = prose() + " "@;
    let s = before + marker() + hex_text(POLICY_FINGERPRINT as nat, 8);
    lemma_calm_prose();
    reveal_strlit(" ");
    reveal_strlit("fingerprint=");
    assert(before.last() == ' ');
    assert forall|at: int| 0 <= at < before.len() implies !#[trigger] marked_at(s, at) by {
        if marked_at(s, at) {
            let piece = s.subrange(at, at + marker().len());
            assert(piece[0] == s[at] && piece[1] == s[at + 1]);
            assert(piece[0] == 'f' && piece[1] == 'i');
            if at == 0 {
                assert(s[0] == prose()[0]);
            } else {
                let space = at - 1;
                assert(space < prose().len());
                assert(s[space] == prose()[space]);
                assert(calm_at(prose(), space));
                assert(s[at] == prose()[at] && s[at + 1] == prose()[at + 1]);
            }
        }
    }
    lemma_a_fingerprint_is_read_back(before, POLICY_FINGERPRINT);
    assert(s =~= description());
}

/// The list that a way of handling is written as.
pub open spec fn list_text(way: Way) -> Seq<char> {
    match way {
        Way::Forgiven => "forgiven=["@ + handled_text(way) + "]"@,
        Way::Declined => "declined=["@ + handled_text(way) + "]"@,
        Way::Excluded => "excluded=["@ + handled_text(way) + "]"@,
    }
}

/// The words of the description.
spec fn words() -> Seq<Seq<char>> {
    seq![
        "comparison=bit-exact"@,
        "tolerance=none"@,
        "nan-vs-nan=agree"@,
        "signed-zero=disagree"@,
        list_text(Way::Forgiven),
        list_text(Way::Declined),
        list_text(Way::Excluded),
        "fingerprint="@ + hex_text(POLICY_FINGERPRINT as nat, 8),
    ]
}

proof fn lemma_glued(a: Seq<char>, b: Seq<char>, c: Seq<char>, d: Seq<char>)
    requires
        b == c + d,
    ensures
        a + b == a + c + d,
{
    assert(a + b =~= a + c + d);
}

proof fn lemma_glued_list(
    a: Seq<char>,
    space: Seq<char>,
    mark: Seq<char>,
    ids: Seq<char>,
    close: Seq<char>,
)
    ensures
        a + space + mark + ids + close == a + space + (mark + ids + close),
{
    assert(a + space + mark + ids + close =~= a + space + (mark + ids + close));
}

proof fn lemma_joined_push(parts: Seq<Seq<char>>, next: Seq<char>)
    requires
        parts.len() > 0,
    ensures
        join_text(parts.push(next), " "@) == join_text(parts, " "@) + " "@ + next,
{
    assert(parts.push(next).drop_last() =~= parts);
}

proof fn lemma_the_marks()
    ensures
        " tolerance=none"@ == " "@ + "tolerance=none"@,
        " nan-vs-nan=agree"@ == " "@ + "nan-vs-nan=agree"@,
        " signed-zero=disagree"@ == " "@ + "signed-zero=disagree"@,
        " forgiven=["@ == " "@ + "forgiven=["@,
        "] declined=["@ == "]"@ + (" "@ + "declined=["@),
        "] excluded=["@ == "]"@ + (" "@ + "excluded=["@),
{
    reveal_strlit(" ");
    reveal_strlit("]");
    reveal_strlit("tolerance=none");
    reveal_strlit(" tolerance=none");
    assert(" tolerance=none"@ =~= " "@ + "tolerance=none"@);
    reveal_strlit("nan-vs-nan=agree");
    reveal_strlit(" nan-vs-nan=agree");
    assert(" nan-vs-nan=agree"@ =~= " "@ + "nan-vs-nan=agree"@);
    reveal_strlit("signed-zero=disagree");
    reveal_strlit(" signed-zero=disagree");
    assert(" signed-zero=disagree"@ =~= " "@ + "signed-zero=disagree"@);
    reveal_strlit("forgiven=[");
    reveal_strlit(" forgiven=[");
    assert(" forgiven=["@ =~= " "@ + "forgiven=["@);
    reveal_strlit("declined=[");
    reveal_strlit("] declined=[");
    assert("] declined=["@ =~= "]"@ + (" "@ + "declined=["@));
    reveal_strlit("excluded=[");
    reveal_strlit("] excluded=[");
    assert("] excluded=["@ =~= "]"@ + (" "@ + "excluded=["@));
}

/// The description is its words with spaces between them.
proof fn lemma_the_description_in_words()
    ensures
        join_text(words(), " "@) == description(),
        words().len() == 8,
{
    lemma_the_marks();
    let space = " "@;
    let close = "]"@;
    let w = words();
    let (f, d, e) = (
        handled_text(Way::Forgiven),
        handled_text(Way::Declined),
        handled_text(Way::Excluded),
    );
    let s0 = "comparison=bit-exact"@;
    lemma_glued(s0, " tolerance=none"@, space, "tolerance=none"@);
    let s1 = s0 + " tolerance=none"@;
    lemma_glued(s1, " nan-vs-nan=agree"@, space, "nan-vs-nan=agree"@);
    let s2 = s1 + " nan-vs-nan=agree"@;
    lemma_glued(s2, " signed-zero=disagree"@, space, "signed-zero=disagree"@);
    let s3 = s2 + " signed-zero=disagree"@;
    lemma_glued(s3, " forgiven=["@, space, "forgiven=["@);
    lemma_glued_list(s3, space, "forgiven=["@, f, close);
    let t4 = s3 + " forgiven=["@ + f;
    let s4 = t4 + close;
    lemma_glued(t4, "] declined=["@, close, space + "declined=["@);
    lemma_glued(s4, space + "declined=["@, space, "declined=["@);
    lemma_glued_list(s4, space, "declined=["@, d, close);
    let t5 = t4 + "] declined=["@ + d;
    let s5 = t5 + close;
    lemma_glued(t5, "] excluded=["@, close, space + "excluded=["@);
    lemma_glued(s5, space + "excluded=["@, space, "excluded=["@);
    lemma_glued_list(s5, space, "excluded=["@, e, close);
    let s6 = t5 + "] excluded=["@ + e + close;
    lemma_glued(
        s6 + space,
        w[7],
        "fingerprint="@,
        hex_text(POLICY_FINGERPRINT as nat, 8),
    );
    let j1 = seq![w[0]];
    let j2 = j1.push(w[1]);
    let j3 = j2.push(w[2]);
    let j4 = j3.push(w[3]);
    let j5 = j4.push(w[4]);
    let j6 = j5.push(w[5]);
    let j7 = j6.push(w[6]);
    let j8 = j7.push(w[7]);
    assert(j8 =~= w);
    assert(join_text(j1, space) == s0);
    lemma_joined_push(j1, w[1]);
    lemma_joined_push(j2, w[2]);
    lemma_joined_push(j3, w[3]);
    lemma_joined_push(j4, w[4]);
    lemma_joined_push(j5, w[5]);
    lemma_joined_push(j6, w[6]);
    lemma_joined_push(j7, w[7]);
    assert(prose() == s6);
}

proof fn lemma_handled_holds(i: int, n: nat)
    requires
        0 <= i < n <= 11,
    ensures
        handled_upto(WAYS[i], n).contains(IDS[i]@),
    decreases n,
{
    let rest = handled_upto(WAYS[i], (n - 1) as nat);
    let all = handled_upto(WAYS[i], n);
    if i == n - 1 {
        assert(all[all.len() - 1] == IDS[i]@);
    } else {
        lemma_handled_holds(i, (n - 1) as nat);
        let k = choose|k: int| 0 <= k < rest.len() && rest[k] == IDS[i]@;
        assert(all[k] == rest[k]);
    }
}

/// The description of the policy says what is compared and how: every entry of the catalog stands
/// in the list of the way in which it is handled, and the rules that are not entries stand there in
/// words.
pub proof fn lemma_the_description_tells_the_policy(i: int)
    requires
        0 <= i < ENTRY_COUNT,
    ensures
        handled_upto(WAYS[i], 11).contains(IDS[i]@),
        stands_in(IDS[i]@, list_text(WAYS[i])),
        stands_in(list_text(WAYS[i]), description()),
        stands_in("comparison=bit-exact"@, description()),
        stands_in("tolerance=none"@, description()),
        stands_in("nan-vs-nan=agree"@, description()),
        stands_in("signed-zero=disagree"@, description()),
{
    let way = WAYS[i];
    let ids = handled_upto(way, 11);
    lemma_handled_holds(i, 11);
    let k = choose|k: int| 0 <= k < ids.len() && ids[k] == IDS[i]@;
    lemma_parts_stand_in_the_joined(ids, ","@, k);
    let mark = match way {
        Way::Forgiven => "forgiven=["@,
        Way::Declined => "declined=["@,
        Way::Excluded => "excluded=["@,
    };
    lemma_stands_in_a_part(IDS[i]@, mark, handled_text(way), "]"@);
    lemma_the_description_in_words();
    let at: int = match way {
        Way::Forgiven => 4,
        Way::Declined => 5,
        Way::Excluded => 6,
    };
    assert(words()[at] == list_text(way));
    lemma_parts_stand_in_the_joined(words(), " "@, at);
    lemma_parts_stand_in_the_joined(words(), " "@, 0);
    lemma_parts_stand_in_the_joined(words(), " "@, 1);
    lemma_parts_stand_in_the_joined(words(), " "@, 2);
    lemma_parts_stand_in_the_joined(words(), " "@, 3);
}

} // verus!
