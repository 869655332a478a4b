//! The record file format: a structured, human-readable rendering of a
//! record's fields, written in full on every persist and read back on load.
//!
//! Layout, one field per block:
//! ```text
//! twk 1
//! id <decimal id>
//! name <decimal char count>
//! <name>
//! tags <decimal tag count>
//! tag <decimal char count>
//! <tag>
//! ...
//! data <decimal char count>
//! <data>
//! ```
//! Payloads are length-prefixed (in characters), so any text is carried
//! verbatim, newlines included, and parsing needs no escaping.
use crate::numbers::{dec_spec, is_digit, lemma_parse_dec_of, parse_dec, parse_dec_at};
use crate::record::{Information, InformationView};
use crate::text::{chars_of, push_char, string_of_range};
use vstd::prelude::*;

verus! {

use vstd::string::StringExecFns;

pub open spec fn nl() -> Seq<char> {
    seq!['\n']
}

/// A length-prefixed payload block: `<label><len>\n<payload>\n`.
pub open spec fn field_block(label: Seq<char>, payload: Seq<char>) -> Seq<char> {
    label + dec_spec(payload.len()) + nl() + payload + nl()
}

/// The tag blocks, in order.
pub open spec fn tags_blocks(tags: Seq<Seq<char>>) -> Seq<char>
    decreases tags.len(),
{
    if tags.len() == 0 {
        Seq::empty()
    } else {
        field_block("tag "@, tags[0]) + tags_blocks(tags.drop_first())
    }
}

/// The full serialized form of a record.
pub open spec fn encode_spec(r: InformationView) -> Seq<char> {
    "twk 1\nid "@ + dec_spec(r.id as nat) + nl() + field_block("name "@, r.name) + "tags "@
        + dec_spec(r.tags.len()) + nl() + tags_blocks(r.tags) + field_block("data "@, r.data)
}

/// `lit` stands verbatim at position `i` of `s`.
pub open spec fn lit_at(s: Seq<char>, i: int, lit: Seq<char>) -> bool {
    0 <= i && i + lit.len() <= s.len() && s.subrange(i, i + lit.len() as int) == lit
}

/// A payload of `n` characters at `i`, closed by a newline.
pub open spec fn parse_payload(s: Seq<char>, i: int, n: nat) -> Option<(Seq<char>, int)> {
    if 0 <= i && i + n + 1 <= s.len() && s[i + n] == '\n' {
        Some((s.subrange(i, i + n), i + n + 1))
    } else {
        None
    }
}

/// One field block: its label, a length, a newline, the payload, a newline.
pub open spec fn parse_field(s: Seq<char>, i: int, label: Seq<char>) -> Option<(Seq<char>, int)> {
    if !lit_at(s, i, label) {
        None
    } else {
        match parse_dec(s, i + label.len(), usize::MAX as nat) {
            None => None,
            Some((n, j)) => {
                if lit_at(s, j, nl()) {
                    parse_payload(s, j + 1, n)
                } else {
                    None
                }
            },
        }
    }
}

/// `count` tag blocks in a row.
pub open spec fn parse_tags(s: Seq<char>, i: int, count: nat) -> Option<(Seq<Seq<char>>, int)>
    decreases count,
{
    if count == 0 {
        Some((Seq::empty(), i))
    } else {
        match parse_field(s, i, "tag "@) {
            None => None,
            Some((t, j)) => match parse_tags(s, j, (count - 1) as nat) {
                None => None,
                Some((ts, k)) => Some((seq![t] + ts, k)),
            },
        }
    }
}

/// The record whose serialized form is exactly `s`, if any.
pub open spec fn parse_spec(s: Seq<char>) -> Option<InformationView> {
    if !lit_at(s, 0, "twk 1\nid "@) {
        None
    } else {
        match parse_dec(s, "twk 1\nid "@.len() as int, u128::MAX as nat) {
            None => None,
            Some((id, i)) => {
                if !lit_at(s, i, nl()) {
                    None
                } else {
                    match parse_field(s, i + 1, "name "@) {
                        None => None,
                        Some((name, j)) => {
                            if !lit_at(s, j, "tags "@) {
                                None
                            } else {
                                match parse_dec(s, j + "tags "@.len(), usize::MAX as nat) {
                                    None => None,
                                    Some((cnt, k)) => {
                                        if !lit_at(s, k, nl()) {
                                            None
                                        } else {
                                            match parse_tags(s, k + 1, cnt) {
                                                None => None,
                                                Some((tags, m)) => {
                                                    match parse_field(s, m, "data "@) {
                                                        None => None,
                                                        Some((data, e)) => {
                                                            if e == s.len() {
                                                                Some(
                                                                    InformationView {
                                                                        id: id as u128,
                                                                        tags,
                                                                        name,
                                                                        data,
                                                                    },
                                                                )
                                                            } else {
                                                                None
                                                            }
                                                        },
                                                    }
                                                },
                                            }
                                        }
                                    },
                                }
                            }
                        },
                    }
                }
            },
        }
    }
}

/// Appends `<label><len>\n<payload>\n` to `out`.
fn append_field(out: &mut String, label: &str, payload: &str)
    ensures
        final(out)@ == old(out)@ + field_block(label@, payload@),
{
    out.append(label);
    let n = payload.unicode_len();
    crate::text::append_dec(out, n as u128);
    push_char(out, '\n');
    out.append(payload);
    push_char(out, '\n');
    proof {
        assert(out@ =~= old(out)@ + field_block(label@, payload@));
    }
}

/// The serialized form of `rec`, exactly `encode_spec(rec@)`.
pub fn encode_record(rec: &Information) -> (out: String)
    ensures
        out@ == encode_spec(rec@),
{
    let mut out = String::new();
    out.append("twk 1\nid ");
    crate::text::append_dec(&mut out, rec.id);
    push_char(&mut out, '\n');
    append_field(&mut out, "name ", rec.name.as_str());
    out.append("tags ");
    crate::text::append_dec(&mut out, rec.tags.len() as u128);
    push_char(&mut out, '\n');
    let ghost tag_views = rec.tags@.map_values(|t: String| t@);
    let mut k: usize = 0;
    while k < rec.tags.len()
        invariant
            k <= rec.tags@.len(),
            tag_views == rec.tags@.map_values(|t: String| t@),
            out@ == "twk 1\nid "@ + dec_spec(rec.id as nat) + nl() + field_block(
                "name "@,
                rec.name@,
            ) + "tags "@ + dec_spec(rec.tags@.len()) + nl() + tags_blocks(
                tag_views.take(k as int),
            ),
        decreases rec.tags@.len() - k,
    {
        append_field(&mut out, "tag ", rec.tags[k].as_str());
        k = k + 1;
        proof {
            lemma_tags_blocks_snoc(tag_views.take(k as int));
            assert(tag_views.take((k - 1) as int) =~= tag_views.take(k as int).drop_last());
            assert(tag_views.take(k as int).last() == tag_views[k - 1]);
            assert(out@ =~= "twk 1\nid "@ + dec_spec(rec.id as nat) + nl() + field_block(
                "name "@,
                rec.name@,
            ) + "tags "@ + dec_spec(rec.tags@.len()) + nl() + tags_blocks(
                tag_views.take(k as int),
            ));
        }
    }
    proof {
        assert(tag_views.take(rec.tags@.len() as int) =~= tag_views);
    }
    append_field(&mut out, "data ", rec.data.as_str());
    proof {
        assert(out@ =~= encode_spec(rec@));
    }
    out
}

/// Whether `lit` stands at position `i`, and the position after it.
fn match_lit(v: &Vec<char>, i: usize, lit: &str) -> (r: Option<usize>)
    requires
        i <= v@.len(),
    ensures
        match r {
            Some(j) => lit_at(v@, i as int, lit@) && j == i + lit@.len() && j <= v@.len(),
            None => !lit_at(v@, i as int, lit@),
        },
{
    let l = chars_of(lit);
    if v.len() - i < l.len() {
        return None;
    }
    let mut k: usize = 0;
    while k < l.len()
        invariant
            k <= l@.len(),
            i + l@.len() <= v@.len(),
            v@.len() <= usize::MAX,
            l@ == lit@,
            forall|m: int| 0 <= m < k ==> v@[i + m] == l@[m],
        decreases l@.len() - k,
    {
        if v[i + k] != l[k] {
            proof {
                assert(v@.subrange(i as int, i + lit@.len() as int)[k as int] != lit@[k as int]);
            }
            return None;
        }
        k = k + 1;
    }
    proof {
        assert(v@.subrange(i as int, i + lit@.len() as int) =~= lit@);
    }
    Some(i + l.len())
}

/// A payload of `n` characters at `i`, closed by a newline.
fn parse_payload_at(v: &Vec<char>, i: usize, n: usize) -> (r: Option<(String, usize)>)
    requires
        i <= v@.len(),
    ensures
        match r {
            Some((s, j)) => parse_payload(v@, i as int, n as nat) == Some((s@, j as int)) && j
                <= v@.len(),
            None => parse_payload(v@, i as int, n as nat) is None,
        },
{
    if n >= v.len() - i {
        return None;
    }
    if v[i + n] != '\n' {
        return None;
    }
    let s = string_of_range(v, i, i + n);
    Some((s, i + n + 1))
}

/// One field block at `i`: label, length, newline, payload, newline.
fn parse_field_at(v: &Vec<char>, i: usize, label: &str) -> (r: Option<(String, usize)>)
    requires
        i <= v@.len(),
    ensures
        match r {
            Some((s, j)) => parse_field(v@, i as int, label@) == Some((s@, j as int)) && i < j
                <= v@.len(),
            None => parse_field(v@, i as int, label@) is None,
        },
{
    let i1 = match match_lit(v, i, label) {
        Some(j) => j,
        None => {
            return None;
        },
    };
    let (n, i2) = match parse_dec_at(v, i1, usize::MAX as u128) {
        Some(p) => p,
        None => {
            return None;
        },
    };
    let i3 = match match_lit(v, i2, "\n") {
        Some(j) => j,
        None => {
            proof {
                reveal_strlit("\n");
                assert("\n"@ =~= nl());
            }
            return None;
        },
    };
    proof {
        reveal_strlit("\n");
        assert("\n"@ =~= nl());
    }
    let n_us = n as usize;
    match parse_payload_at(v, i3, n_us) {
        Some((s, j)) => Some((s, j)),
        None => None,
    }
}

/// The record serialized in `text`, exactly as `parse_spec` describes it.
#[verifier::loop_isolation(false)]
pub fn parse_record(text: &str) -> (r: Option<Information>)
    ensures
        match r {
            Some(rec) => parse_spec(text@) == Some(rec@),
            None => parse_spec(text@) is None,
        },
{
    proof {
        reveal_strlit("\n");
        assert("\n"@ =~= nl());
    }
    let v = chars_of(text);
    let i1 = match match_lit(&v, 0, "twk 1\nid ") {
        Some(j) => j,
        None => {
            return None;
        },
    };
    let (id, i2) = match parse_dec_at(&v, i1, u128::MAX) {
        Some(p) => p,
        None => {
            return None;
        },
    };
    let i3 = match match_lit(&v, i2, "\n") {
        Some(j) => j,
        None => {
            return None;
        },
    };
    let (name, i4) = match parse_field_at(&v, i3, "name ") {
        Some(p) => p,
        None => {
            return None;
        },
    };
    let i5 = match match_lit(&v, i4, "tags ") {
        Some(j) => j,
        None => {
            return None;
        },
    };
    let (cnt128, i6) = match parse_dec_at(&v, i5, usize::MAX as u128) {
        Some(p) => p,
        None => {
            return None;
        },
    };
    let cnt = cnt128 as usize;
    let i7 = match match_lit(&v, i6, "\n") {
        Some(j) => j,
        None => {
            return None;
        },
    };
    let ghost start = i7 as int;
    let mut tags: Vec<String> = Vec::new();
    let mut pos: usize = i7;
    let mut k: usize = 0;
    while k < cnt
        invariant
            k <= cnt,
            pos <= v@.len(),
            tags@.len() == k,
            ({
                let done = tags@.map_values(|t: String| t@);
                match parse_tags(v@, pos as int, (cnt - k) as nat) {
                    Some((ts, m)) => parse_tags(v@, start, cnt as nat) == Some((done + ts, m)),
                    None => parse_tags(v@, start, cnt as nat) is None,
                }
            }),
        decreases cnt - k,
    {
        let ghost done_before = tags@.map_values(|t: String| t@);
        match parse_field_at(&v, pos, "tag ") {
            Some((t, j)) => {
                tags.push(t);
                proof {
                    assert(tags@.map_values(|t: String| t@) =~= done_before.push(t@));
                    if let Some((ts, m)) = parse_tags(v@, j as int, (cnt - k - 1) as nat) {
                        assert(parse_tags(v@, pos as int, (cnt - k) as nat) == Some(
                            (seq![t@] + ts, m),
                        ));
                        assert(done_before + (seq![t@] + ts) =~= done_before.push(t@) + ts);
                    }
                }
                pos = j;
                k = k + 1;
            },
            None => {
                return None;
            },
        }
    }
    proof {
        assert(tags@.map_values(|t: String| t@) + Seq::<Seq<char>>::empty() =~= tags@.map_values(
            |t: String| t@,
        ));
    }
    let (data, i8) = match parse_field_at(&v, pos, "data ") {
        Some(p) => p,
        None => {
            return None;
        },
    };
    if i8 != v.len() {
        return None;
    }
    let rec = Information { id, tags, name, data };
    proof {
        assert(parse_spec(text@) == Some(rec@));
    }
    Some(rec)
}

/// Splitting the last tag off a nonempty tag sequence splits its blocks.
proof fn lemma_tags_blocks_snoc(tags: Seq<Seq<char>>)
    requires
        tags.len() >= 1,
    ensures
        tags_blocks(tags) == tags_blocks(tags.drop_last()) + field_block("tag "@, tags.last()),
    decreases tags.len(),
{
    if tags.len() == 1 {
        assert(tags[0] == tags.last());
        assert(tags.drop_first().len() == 0);
        assert(tags.drop_last().len() == 0);
        assert(tags_blocks(tags.drop_first()) == Seq::<char>::empty());
        assert(tags_blocks(tags.drop_last()) == Seq::<char>::empty());
        assert(tags_blocks(tags) == field_block("tag "@, tags[0]) + tags_blocks(
            tags.drop_first(),
        ));
        assert(tags_blocks(tags) =~= tags_blocks(tags.drop_last()) + field_block(
            "tag "@,
            tags.last(),
        ));
    } else {
        lemma_tags_blocks_snoc(tags.drop_first());
        assert(tags.drop_first().drop_last() =~= tags.drop_last().drop_first());
        assert(tags.drop_first().last() == tags.last());
        assert(tags.drop_last()[0] == tags[0]);
        assert(tags_blocks(tags) =~= tags_blocks(tags.drop_last()) + field_block(
            "tag "@,
            tags.last(),
        ));
    }
}


/// Every field of the record fits the machine's sizes; true of every
/// record an executable program can hold.
pub open spec fn bounded_view(r: InformationView) -> bool {
    &&& r.name.len() <= usize::MAX
    &&& r.data.len() <= usize::MAX
    &&& r.tags.len() <= usize::MAX
    &&& forall|k: int| 0 <= k < r.tags.len() ==> #[trigger] r.tags[k].len() <= usize::MAX
}

/// Splits a concatenation found inside `s` into its two parts.
proof fn lemma_concat_parts(s: Seq<char>, i: int, a: Seq<char>, b: Seq<char>)
    requires
        0 <= i,
        i + a.len() + b.len() <= s.len(),
        s.subrange(i, i + a.len() + b.len()) == a + b,
    ensures
        s.subrange(i, i + a.len() as int) == a,
        s.subrange(i + a.len() as int, i + a.len() + b.len()) == b,
{
    assert forall|x: int| 0 <= x < a.len() + b.len() implies s[i + x] == (a + b)[x] by {
        assert(s.subrange(i, i + a.len() + b.len())[x] == s[i + x]);
    }
    assert forall|x: int| 0 <= x < a.len() implies s.subrange(i, i + a.len() as int)[x] == a[x] by {
        assert(s[i + x] == (a + b)[x]);
        assert((a + b)[x] == a[x]);
    }
    assert forall|x: int|
        0 <= x < b.len() implies s.subrange(i + a.len() as int, i + a.len() + b.len())[x]
        == b[x] by {
        assert(s[i + a.len() + x] == (a + b)[a.len() + x]);
        assert((a + b)[a.len() + x] == b[x]);
    }
    assert(s.subrange(i, i + a.len() as int) =~= a);
    assert(s.subrange(i + a.len() as int, i + a.len() + b.len()) =~= b);
}

/// A field block placed at `i` of `s` parses back to exactly its payload.
proof fn lemma_parse_field_of(s: Seq<char>, i: int, label: Seq<char>, payload: Seq<char>)
    requires
        0 <= i,
        i + field_block(label, payload).len() <= s.len(),
        s.subrange(i, i + field_block(label, payload).len() as int) == field_block(label, payload),
        payload.len() <= usize::MAX,
    ensures
        parse_field(s, i, label) == Some(
            (payload, i + field_block(label, payload).len() as int),
        ),
{
    let d = dec_spec(payload.len());
    let block = field_block(label, payload);
    let ln = label.len() as int;
    let dn = d.len() as int;
    let pn = payload.len() as int;
    assert forall|x: int| 0 <= x < block.len() implies s[i + x] == block[x] by {
        assert(s.subrange(i, i + block.len() as int)[x] == s[i + x]);
    }
    let front2 = label + d;
    let front3 = front2 + nl();
    let front4 = front3 + payload;
    assert(block == front4 + nl());
    assert(nl()[0] == '\n');
    assert(block[ln + dn] == nl()[0]) by {
        assert(front3[ln + dn] == nl()[0]);
        assert(front4[ln + dn] == front3[ln + dn]);
        assert(block[ln + dn] == front4[ln + dn]);
    }
    assert(block[ln + dn + 1 + pn] == nl()[0]) by {
        assert(block.len() == ln + dn + 1 + pn + 1);
        assert(block[ln + dn + 1 + pn] == nl()[0]);
    }
    assert forall|x: int| 0 <= x < dn implies block[ln + x] == d[x] by {
        assert(front2[ln + x] == d[x]);
        assert(front3[ln + x] == front2[ln + x]);
        assert(front4[ln + x] == front3[ln + x]);
        assert(block[ln + x] == front4[ln + x]);
    }
    assert forall|x: int| 0 <= x < pn implies block[ln + dn + 1 + x] == payload[x] by {
        assert(front4[ln + dn + 1 + x] == payload[x]);
        assert(block[ln + dn + 1 + x] == front4[ln + dn + 1 + x]);
    }
    assert(s.subrange(i, i + ln) =~= label);
    assert(lit_at(s, i, label));
    assert(s.subrange(i + ln, i + ln + dn) =~= d);
    assert(block[ln + dn] == '\n');
    assert(!is_digit('\n'));
    lemma_parse_dec_of(s, i + ln, payload.len(), usize::MAX as nat);
    assert(parse_dec(s, i + label.len(), usize::MAX as nat) == Some(
        (payload.len(), i + ln + dn),
    ));
    assert(s.subrange(i + ln + dn, i + ln + dn + 1) =~= nl());
    assert(lit_at(s, i + ln + dn, nl()));
    assert(s[i + ln + dn + 1 + pn] == block[ln + dn + 1 + pn]);
    assert(block[ln + dn + 1 + pn] == '\n');
    assert(s.subrange(i + ln + dn + 1, i + ln + dn + 1 + pn) =~= payload);
    assert(parse_payload(s, i + ln + dn + 1, payload.len()) == Some(
        (payload, i + ln + dn + 1 + pn + 1),
    ));
    assert(block.len() == ln + dn + 1 + pn + 1);
}

/// Tag blocks placed at `i` of `s` parse back to exactly their tags.
proof fn lemma_parse_tags_of(s: Seq<char>, i: int, tags: Seq<Seq<char>>)
    requires
        0 <= i,
        i + tags_blocks(tags).len() <= s.len(),
        s.subrange(i, i + tags_blocks(tags).len() as int) == tags_blocks(tags),
        forall|k: int| 0 <= k < tags.len() ==> #[trigger] tags[k].len() <= usize::MAX,
    ensures
        parse_tags(s, i, tags.len()) == Some((tags, i + tags_blocks(tags).len() as int)),
    decreases tags.len(),
{
    if tags.len() == 0 {
        assert(tags =~= Seq::<Seq<char>>::empty());
    } else {
        let block0 = field_block("tag "@, tags[0]);
        let rest = tags_blocks(tags.drop_first());
        assert(tags_blocks(tags) == block0 + rest);
        let bn = block0.len() as int;
        let rn = rest.len() as int;
        lemma_concat_parts(s, i, block0, rest);
        lemma_parse_field_of(s, i, "tag "@, tags[0]);
        lemma_parse_tags_of(s, i + bn, tags.drop_first());
        assert(parse_tags(s, i + bn, (tags.len() - 1) as nat) == Some(
            (tags.drop_first(), i + bn + rn),
        ));
        assert(seq![tags[0]] + tags.drop_first() =~= tags);
    }
}

/// Round trip: parsing reads back exactly what encoding wrote, for every
/// record whose fields fit the machine's sizes.
#[verifier::rlimit(100)]
pub proof fn lemma_round_trip(r: InformationView)
    requires
        bounded_view(r),
    ensures
        parse_spec(encode_spec(r)) == Some(r),
{
    reveal_strlit("twk 1\nid ");
    reveal_strlit("name ");
    reveal_strlit("tags ");
    reveal_strlit("tag ");
    reveal_strlit("data ");
    let s = encode_spec(r);
    let hdr = "twk 1\nid "@;
    let did = dec_spec(r.id as nat);
    let nameb = field_block("name "@, r.name);
    let tlit = "tags "@;
    let dcnt = dec_spec(r.tags.len());
    let tagsb = tags_blocks(r.tags);
    let datab = field_block("data "@, r.data);
    let p1 = hdr;
    let p2 = p1 + did;
    let p3 = p2 + nl();
    let p4 = p3 + nameb;
    let p5 = p4 + tlit;
    let p6 = p5 + dcnt;
    let p7 = p6 + nl();
    let p8 = p7 + tagsb;
    let o1 = hdr.len() as int;
    let o2 = o1 + did.len();
    let o3 = o2 + 1;
    let o4 = o3 + nameb.len();
    let o5 = o4 + tlit.len();
    let o6 = o5 + dcnt.len();
    let o7 = o6 + 1;
    let o8 = o7 + tagsb.len();
    let o9 = o8 + datab.len();
    assert(s == p8 + datab);
    assert(s.len() == o9);
    assert(s.subrange(0, o9) =~= s);
    lemma_concat_parts(s, 0, p8, datab);
    lemma_concat_parts(s, 0, p7, tagsb);
    lemma_concat_parts(s, 0, p6, nl());
    lemma_concat_parts(s, 0, p5, dcnt);
    lemma_concat_parts(s, 0, p4, tlit);
    lemma_concat_parts(s, 0, p3, nameb);
    lemma_concat_parts(s, 0, p2, nl());
    lemma_concat_parts(s, 0, p1, did);
    assert(lit_at(s, 0, hdr));
    assert(s[o2] == '\n') by {
        assert(s.subrange(o2, o3)[0] == s[o2]);
        assert(nl()[0] == '\n');
    }
    assert(!is_digit('\n'));
    lemma_parse_dec_of(s, o1, r.id as nat, u128::MAX as nat);
    assert(parse_dec(s, hdr.len() as int, u128::MAX as nat) == Some((r.id as nat, o2)));
    assert(lit_at(s, o2, nl()));
    lemma_parse_field_of(s, o3, "name "@, r.name);
    assert(parse_field(s, o2 + 1, "name "@) == Some((r.name, o4)));
    assert(lit_at(s, o4, tlit));
    assert(s[o6] == '\n') by {
        assert(s.subrange(o6, o7)[0] == s[o6]);
        assert(nl()[0] == '\n');
    }
    lemma_parse_dec_of(s, o5, r.tags.len(), usize::MAX as nat);
    assert(parse_dec(s, o4 + tlit.len(), usize::MAX as nat) == Some((r.tags.len(), o6)));
    assert(lit_at(s, o6, nl()));
    lemma_parse_tags_of(s, o7, r.tags);
    assert(parse_tags(s, o6 + 1, r.tags.len()) == Some((r.tags, o8)));
    lemma_parse_field_of(s, o8, "data "@, r.data);
    assert(parse_field(s, o8, "data "@) == Some((r.data, o9)));
    assert(parse_spec(s) == Some(
        InformationView { id: r.id, tags: r.tags, name: r.name, data: r.data },
    ));
    assert(InformationView { id: r.id, tags: r.tags, name: r.name, data: r.data } == r);
}

} // verus!
