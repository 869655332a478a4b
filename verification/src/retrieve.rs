//! Ranked fuzzy retrieval: scoring through the fuzzy matcher, and a stable
//! descending sort of the scored records.
use crate::record::{Information, InformationView};
use vstd::prelude::*;

verus! {

use vstd::string::StrSliceExecFns;
use vstd::string::is_ascii;
use vstd::utf8::is_ascii_chars;

/// `needle` appears, in order, within `hay` (not necessarily contiguously).
pub open spec fn is_subseq_of(needle: Seq<char>, hay: Seq<char>) -> bool
    decreases hay.len(),
{
    if needle.len() == 0 {
        true
    } else if hay.len() == 0 {
        false
    } else if needle[0] == hay[0] {
        is_subseq_of(needle.drop_first(), hay.drop_first())
    } else {
        is_subseq_of(needle, hay.drop_first())
    }
}

/// The score the fuzzy matcher gives `needle` against `hay`: deterministic
/// for a given pair of character sequences.
pub uninterp spec fn fuzzy_score_of(hay: Seq<char>, needle: Seq<char>) -> Option<u16>;

/// The longest query the matcher is handed. Its score accumulates in
/// sixteen bits and each matched character adds a small bounded amount
/// (at most the per-match score plus the largest bonus), so this cap keeps
/// the sum well under `u16::MAX`.
pub const MAX_QUERY_LEN: usize = 1000;

/// The score of a field: the matcher rejects haystacks of more than
/// `u32::MAX` codepoints and its score fits sixteen bits only for short
/// needles, so a field or query past its limit is treated as matching
/// nothing.
pub open spec fn field_score(hay: Seq<char>, needle: Seq<char>) -> Option<u16> {
    if hay.len() <= u32::MAX && needle.len() <= MAX_QUERY_LEN {
        fuzzy_score_of(hay, needle)
    } else {
        None
    }
}

/// Relies on nucleo_matcher's Matcher::fuzzy_match, configured case-sensitive
/// and without normalization: the score depends on the two character
/// sequences alone; an empty needle always matches with score zero; and an
/// ASCII needle matches an ASCII haystack only where its characters appear
/// in order as a subsequence. The matcher asserts on haystacks above
/// `u32::MAX` codepoints, and its score accumulates in a plain `u16`,
/// uncapped over the needle length, so the needle is capped at
/// `MAX_QUERY_LEN`: both limits stand in the `requires`.
#[verifier::external_body]
fn nucleo_score(hay: &str, needle: &str) -> (r: Option<u16>)
    requires
        hay@.len() <= u32::MAX,
        needle@.len() <= MAX_QUERY_LEN,
    ensures
        r == fuzzy_score_of(hay@, needle@),
        needle@.len() == 0 ==> r == Some(0u16),
        (r is Some && is_ascii(hay) && is_ascii(needle)) ==> is_subseq_of(needle@, hay@),
{
    let mut config = nucleo_matcher::Config::DEFAULT;
    config.ignore_case = false;
    config.normalize = false;
    let mut matcher = nucleo_matcher::Matcher::new(config);
    let h = nucleo_matcher::Utf32String::from(hay);
    let n = nucleo_matcher::Utf32String::from(needle);
    matcher.fuzzy_match(h.slice(..), n.slice(..))
}

/// The score of one field against the query: exactly `field_score`; a
/// score exists for ASCII texts only where the query appears in order.
pub fn score_field(hay: &str, needle: &str) -> (r: Option<u16>)
    ensures
        r == field_score(hay@, needle@),
        (r is Some && is_ascii_chars(hay@) && is_ascii_chars(needle@)) ==> is_subseq_of(
            needle@,
            hay@,
        ),
{
    let hl = hay.unicode_len();
    let nl = needle.unicode_len();
    if (hl as u64) > (u32::MAX as u64) || nl > MAX_QUERY_LEN {
        return None;
    }
    nucleo_score(hay, needle)
}

/// The better of the record's two field scores against the query, where
/// one exists; `None` when neither field matches.
pub open spec fn best_score(r: InformationView, q: Seq<char>) -> Option<u16> {
    match (field_score(r.name, q), field_score(r.data, q)) {
        (Some(a), Some(b)) => if a >= b {
            Some(a)
        } else {
            Some(b)
        },
        (Some(a), None) => Some(a),
        (None, Some(b)) => Some(b),
        (None, None) => None,
    }
}

/// Inserts after every element of equal or higher score: stable insertion.
pub open spec fn insert_desc(s: Seq<(u16, InformationView)>, x: (u16, InformationView)) -> Seq<
    (u16, InformationView),
>
    decreases s.len(),
{
    if s.len() == 0 {
        seq![x]
    } else if s[0].0 >= x.0 {
        seq![s[0]] + insert_desc(s.drop_first(), x)
    } else {
        seq![x] + s
    }
}

/// Stable sort by descending score: elements are inserted in order, each
/// after all elements of equal or higher score.
pub open spec fn sort_desc(s: Seq<(u16, InformationView)>) -> Seq<(u16, InformationView)>
    decreases s.len(),
{
    if s.len() == 0 {
        Seq::empty()
    } else {
        insert_desc(sort_desc(s.drop_last()), s.last())
    }
}

/// The elements scoring exactly `c`.
pub open spec fn score_is(c: u16) -> spec_fn((u16, InformationView)) -> bool {
    |p: (u16, InformationView)| p.0 == c
}

/// Scores descend left to right.
pub open spec fn sorted_desc(s: Seq<(u16, InformationView)>) -> bool {
    forall|i: int, j: int| 0 <= i < j < s.len() ==> s[i].0 >= s[j].0
}

proof fn lemma_insert_desc_sorted(s: Seq<(u16, InformationView)>, x: (u16, InformationView))
    requires
        sorted_desc(s),
    ensures
        sorted_desc(insert_desc(s, x)),
        insert_desc(s, x).len() == s.len() + 1,
        forall|k: int|
            0 <= k < insert_desc(s, x).len() ==> (insert_desc(s, x)[k] == x || exists|m: int|
                0 <= m < s.len() && insert_desc(s, x)[k] == s[m]),
    decreases s.len(),
{
    let out = insert_desc(s, x);
    if s.len() == 0 {
    } else if s[0].0 >= x.0 {
        assert(sorted_desc(s.drop_first()));
        lemma_insert_desc_sorted(s.drop_first(), x);
        let inner = insert_desc(s.drop_first(), x);
        assert(out == seq![s[0]] + inner);
        assert forall|i: int, j: int| 0 <= i < j < out.len() implies out[i].0 >= out[j].0 by {
            if i == 0 {
                assert(out[j] == inner[j - 1]);
                assert(inner[j - 1] == x || exists|m: int|
                    0 <= m < s.drop_first().len() && inner[j - 1] == s.drop_first()[m]);
                if inner[j - 1] != x {
                    let m = choose|m: int|
                        0 <= m < s.drop_first().len() && inner[j - 1] == s.drop_first()[m];
                    assert(s.drop_first()[m] == s[m + 1]);
                    assert(s[0].0 >= s[m + 1].0);
                }
            } else {
                assert(out[i] == inner[i - 1] && out[j] == inner[j - 1]);
            }
        }
        assert forall|k: int|
            0 <= k < out.len() implies (out[k] == x || exists|m: int|
            0 <= m < s.len() && out[k] == s[m]) by {
            if k == 0 {
                assert(out[0] == s[0]);
            } else {
                assert(out[k] == inner[k - 1]);
                if inner[k - 1] != x {
                    let m = choose|m: int|
                        0 <= m < s.drop_first().len() && inner[k - 1] == s.drop_first()[m];
                    assert(out[k] == s[m + 1]);
                }
            }
        }
    } else {
        assert(out == seq![x] + s);
        assert forall|i: int, j: int| 0 <= i < j < out.len() implies out[i].0 >= out[j].0 by {
            if i == 0 {
                assert(out[j] == s[j - 1]);
                if j - 1 > 0 {
                    assert(s[0].0 >= s[j - 1].0);
                }
            }
        }
    }
}

/// The sorted sequence descends by score.
pub proof fn lemma_sort_desc_sorted(s: Seq<(u16, InformationView)>)
    ensures
        sorted_desc(sort_desc(s)),
        sort_desc(s).len() == s.len(),
    decreases s.len(),
{
    if s.len() > 0 {
        lemma_sort_desc_sorted(s.drop_last());
        lemma_insert_desc_sorted(sort_desc(s.drop_last()), s.last());
    }
}

proof fn lemma_filter_none(s: Seq<(u16, InformationView)>, c: u16)
    requires
        forall|k: int| 0 <= k < s.len() ==> (#[trigger] s[k]).0 != c,
    ensures
        s.filter(score_is(c)) == Seq::<(u16, InformationView)>::empty(),
    decreases s.len(),
{
    reveal_with_fuel(Seq::<_>::filter, 2);
    let f = score_is(c);
    if s.len() > 0 {
        assert(f(s.last()) == (s.last().0 == c));
        assert(!f(s.last()));
        assert forall|k: int| 0 <= k < s.drop_last().len() implies (#[trigger] s.drop_last()[k]).0
            != c by {
            assert(s.drop_last()[k] == s[k]);
        }
        lemma_filter_none(s.drop_last(), c);
        assert(s.drop_last().filter(f) == Seq::<(u16, InformationView)>::empty());
        assert(s.filter(f) == s.drop_last().filter(f));
    } else {
        assert(s.filter(f) =~= Seq::<(u16, InformationView)>::empty());
    }
}

proof fn lemma_insert_desc_filter(s: Seq<(u16, InformationView)>, x: (u16, InformationView), c: u16)
    requires
        sorted_desc(s),
    ensures
        insert_desc(s, x).filter(score_is(c)) == if x.0 == c {
            s.filter(score_is(c)).push(x)
        } else {
            s.filter(score_is(c))
        },
    decreases s.len(),
{
    reveal_with_fuel(Seq::<_>::filter, 2);
    let f = score_is(c);
    let single_x = seq![x];
    assert(Seq::<(u16, InformationView)>::empty().filter(f) == Seq::<(u16, InformationView)>::empty());
    assert(single_x.drop_last() =~= Seq::<(u16, InformationView)>::empty());
    assert(single_x.filter(f) == if x.0 == c {
        Seq::<(u16, InformationView)>::empty().push(x)
    } else {
        Seq::<(u16, InformationView)>::empty()
    });
    if s.len() == 0 {
        assert(insert_desc(s, x) == single_x);
        assert(s.filter(f) == Seq::<(u16, InformationView)>::empty());
        if x.0 == c {
            assert(single_x.filter(f) =~= s.filter(f).push(x));
        }
    } else if s[0].0 >= x.0 {
        let head = seq![s[0]];
        let inner = insert_desc(s.drop_first(), x);
        assert(sorted_desc(s.drop_first()));
        lemma_insert_desc_filter(s.drop_first(), x, c);
        Seq::filter_distributes_over_add(head, inner, f);
        Seq::filter_distributes_over_add(head, s.drop_first(), f);
        assert(s =~= head + s.drop_first());
        assert(insert_desc(s, x) == head + inner);
        if x.0 == c {
            assert(head.filter(f) + s.drop_first().filter(f).push(x) =~= (head.filter(f)
                + s.drop_first().filter(f)).push(x));
        }
    } else {
        assert(insert_desc(s, x) == single_x + s);
        Seq::filter_distributes_over_add(single_x, s, f);
        if x.0 == c {
            assert(forall|k: int| 0 <= k < s.len() ==> (#[trigger] s[k]).0 <= s[0].0);
            lemma_filter_none(s, c);
            assert(single_x.filter(f) + s.filter(f) =~= s.filter(f).push(x));
        } else {
            assert(single_x.filter(f) + s.filter(f) =~= s.filter(f));
        }
    }
}

/// Stability: for every score, the sort keeps exactly the elements of that
/// score, in their input order.
pub proof fn lemma_sort_desc_stable(s: Seq<(u16, InformationView)>, c: u16)
    ensures
        sort_desc(s).filter(score_is(c)) == s.filter(score_is(c)),
    decreases s.len(),
{
    reveal_with_fuel(Seq::<_>::filter, 2);
    let f = score_is(c);
    if s.len() > 0 {
        lemma_sort_desc_stable(s.drop_last(), c);
        lemma_sort_desc_sorted(s.drop_last());
        lemma_insert_desc_filter(sort_desc(s.drop_last()), s.last(), c);
        assert(f(s.last()) == (s.last().0 == c));
    } else {
        assert(s.filter(f) =~= Seq::<(u16, InformationView)>::empty());
        assert(sort_desc(s).filter(f) =~= Seq::<(u16, InformationView)>::empty());
    }
}

/// The query matches the record: for ASCII texts, the query's characters
/// appear in order within the name or within the body.
pub open spec fn subseq_matches(rv: InformationView, q: Seq<char>) -> bool {
    (is_ascii_chars(q) && is_ascii_chars(rv.name) && is_ascii_chars(rv.data)) ==> (is_subseq_of(
        q,
        rv.name,
    ) || is_subseq_of(q, rv.data))
}

/// Scoring a record: the better of the two field scores, and, when one
/// exists, the evidence that the query matches the record.
pub fn score_record(rec: &Information, query: &str) -> (r: Option<u16>)
    ensures
        r == best_score(rec@, query@),
        r is Some ==> subseq_matches(rec@, query@),
{
    let name_score = score_field(rec.name.as_str(), query);
    let data_score = score_field(rec.data.as_str(), query);
    match (name_score, data_score) {
        (Some(a), Some(b)) => if a >= b {
            Some(a)
        } else {
            Some(b)
        },
        (Some(a), None) => Some(a),
        (None, Some(b)) => Some(b),
        (None, None) => None,
    }
}

/// The scores and views of a sequence of scored records.
pub open spec fn pairs_view(s: Seq<(u16, Information)>) -> Seq<(u16, InformationView)> {
    s.map_values(|p: (u16, Information)| (p.0, p.1@))
}

proof fn lemma_insert_desc_at(s: Seq<(u16, InformationView)>, x: (u16, InformationView), p: int)
    requires
        0 <= p <= s.len(),
        forall|m: int| 0 <= m < p ==> (#[trigger] s[m]).0 >= x.0,
        p < s.len() ==> s[p].0 < x.0,
    ensures
        insert_desc(s, x) == s.insert(p, x),
    decreases s.len(),
{
    if p == 0 {
        if s.len() == 0 {
            assert(insert_desc(s, x) =~= s.insert(0, x));
        } else {
            assert(s[0].0 < x.0);
            assert(seq![x] + s =~= s.insert(0, x));
        }
    } else {
        assert(s[0].0 >= x.0);
        lemma_insert_desc_at(s.drop_first(), x, p - 1);
        assert(seq![s[0]] + s.drop_first().insert(p - 1, x) =~= s.insert(p, x));
    }
}

/// Every element of the sorted sequence comes from the input.
pub proof fn lemma_sort_desc_membership(s: Seq<(u16, InformationView)>)
    ensures
        sort_desc(s).len() == s.len(),
        forall|k: int|
            0 <= k < s.len() ==> exists|m: int| 0 <= m < s.len() && (#[trigger] sort_desc(
                s,
            )[k]) == s[m],
    decreases s.len(),
{
    if s.len() > 0 {
        lemma_sort_desc_membership(s.drop_last());
        lemma_sort_desc_sorted(s.drop_last());
        lemma_insert_desc_sorted(sort_desc(s.drop_last()), s.last());
        let inner = sort_desc(s.drop_last());
        let out = sort_desc(s);
        assert forall|k: int|
            0 <= k < s.len() implies exists|m: int|
            0 <= m < s.len() && #[trigger] sort_desc(s)[k] == s[m] by {
            assert(out[k] == s.last() || exists|m: int| 0 <= m < inner.len() && out[k] == inner[m]);
            if out[k] == s.last() {
                assert(out[k] == s[s.len() - 1]);
            } else {
                let m = choose|m: int| 0 <= m < inner.len() && out[k] == inner[m];
                let m2 = choose|m2: int|
                    0 <= m2 < s.drop_last().len() && inner[m] == s.drop_last()[m2];
                assert(out[k] == s[m2]);
            }
        }
    }
}

/// Inserts one scored record after every element of equal or higher score.
fn insert_scored(out: &mut Vec<(u16, Information)>, x: (u16, Information))
    ensures
        pairs_view(final(out)@) == insert_desc(pairs_view(old(out)@), (x.0, x.1@)),
{
    let mut p: usize = 0;
    while p < out.len() && out[p].0 >= x.0
        invariant
            p <= out@.len(),
            out@ == old(out)@,
            forall|m: int| 0 <= m < p ==> (#[trigger] out@[m]).0 >= x.0,
        decreases out@.len() - p,
    {
        p = p + 1;
    }
    let ghost sv = pairs_view(out@);
    let ghost xv = (x.0, x.1@);
    proof {
        assert(forall|m: int| 0 <= m < p ==> (#[trigger] sv[m]).0 >= xv.0);
        assert(p < sv.len() ==> sv[p as int].0 < xv.0);
        lemma_insert_desc_at(sv, xv, p as int);
    }
    out.insert(p, x);
    proof {
        assert(pairs_view(final(out)@) =~= sv.insert(p as int, xv));
    }
}

/// Sorts the scored records by descending score, stably: exactly
/// `sort_desc` of the input.
pub fn sort_scored(v: Vec<(u16, Information)>) -> (r: Vec<(u16, Information)>)
    ensures
        pairs_view(r@) == sort_desc(pairs_view(v@)),
{
    let ghost full = pairs_view(v@);
    let mut src = v;
    let mut out: Vec<(u16, Information)> = Vec::new();
    let ghost mut i: int = 0;
    while src.len() > 0
        invariant
            0 <= i <= full.len(),
            pairs_view(src@) == full.skip(i),
            pairs_view(out@) == sort_desc(full.take(i)),
        decreases src@.len(),
    {
        let ghost prev = src@;
        let x = src.remove(0);
        proof {
            assert(prev.len() > 0);
            assert(pairs_view(prev).len() == prev.len());
            assert(full.skip(i).len() == full.len() - i);
            assert(i < full.len());
            prev.remove_ensures(0);
            assert(pairs_view(prev)[0] == full.skip(i)[0]);
            assert(full.skip(i)[0] == full[i]);
            assert((x.0, x.1@) == full[i]);
            assert forall|m: int|
                0 <= m < src@.len() implies pairs_view(src@)[m] == full.skip(i + 1)[m] by {
                assert(src@[m] == prev[m + 1]);
                assert(pairs_view(prev)[m + 1] == full.skip(i)[m + 1]);
                assert(full.skip(i)[m + 1] == full[i + 1 + m]);
                assert(full.skip(i + 1)[m] == full[i + 1 + m]);
            }
            assert(pairs_view(src@) =~= full.skip(i + 1));
        }
        insert_scored(&mut out, x);
        proof {
            i = i + 1;
            assert(full.take(i).drop_last() =~= full.take(i - 1));
            assert(full.take(i).last() == full[i - 1]);
        }
    }
    proof {
        assert(full.skip(i).len() == 0);
        assert(i == full.len());
        assert(full.take(i) =~= full);
    }
    out
}

} // verus!
