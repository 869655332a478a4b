//! The record store: a named, insertion-ordered collection of guarded
//! cells backed by one storage directory.
use crate::cell::Locked;
use crate::codec::{encode_spec, parse_spec};
use crate::numbers::dec_spec;
use crate::record::{Information, InformationView};
use crate::retrieve::{best_score, lemma_sort_desc_stable, score_is, sort_desc};
use crate::text::{append_dec, push_char, str_eq};
use vstd::prelude::*;

verus! {

use vstd::string::StringExecFns;

/// Relies on uuid's Uuid::new_v4: a freshly generated random version-4
/// identifier, read out as its 128-bit value. Nothing is promised of the
/// value: uniqueness of ids is probabilistic, not proved.
#[verifier::external_body]
fn fresh_id() -> u128 {
    uuid::Uuid::new_v4().as_u128()
}

/// The deterministic backing path of the record with identifier `id`:
/// `<dir>/<id>.rec`.
pub open spec fn record_path_spec(dir: Seq<char>, id: u128) -> Seq<char> {
    dir + seq!['/'] + dec_spec(id as nat) + ".rec"@
}

/// `t` stands in the record's tag list, matched exactly.
pub open spec fn has_tag(r: InformationView, t: Seq<char>) -> bool {
    exists|k: int| 0 <= k < r.tags.len() && r.tags[k] == t
}

/// The records that the given file contents yield, in file order: contents
/// that do not deserialize are skipped.
pub open spec fn load_spec(files: Seq<Seq<char>>) -> Seq<InformationView>
    decreases files.len(),
{
    if files.len() == 0 {
        Seq::empty()
    } else {
        let rest = load_spec(files.drop_last());
        match parse_spec(files.last()) {
            Some(r) => rest.push(r),
            None => rest,
        }
    }
}

/// The score under which a record enters the result of a recall: its best
/// field score, or nothing when a tag filter is given and misses.
pub open spec fn keep_score(r: InformationView, q: Seq<char>, t: Option<Seq<char>>) -> Option<u16> {
    match t {
        Some(tg) => if has_tag(r, tg) {
            best_score(r, q)
        } else {
            None
        },
        None => best_score(r, q),
    }
}

/// The matching records paired with their scores, in collection order.
pub open spec fn scored_records(
    records: Seq<InformationView>,
    q: Seq<char>,
    t: Option<Seq<char>>,
) -> Seq<(u16, InformationView)>
    decreases records.len(),
{
    if records.len() == 0 {
        Seq::empty()
    } else {
        let rest = scored_records(records.drop_last(), q, t);
        match keep_score(records.last(), q, t) {
            Some(sc) => rest.push((sc, records.last())),
            None => rest,
        }
    }
}

/// What a recall returns: the matching records, sorted by descending score
/// with a stable sort, scores stripped.
pub open spec fn recall_spec(
    records: Seq<InformationView>,
    q: Seq<char>,
    t: Option<Seq<char>>,
) -> Seq<InformationView> {
    sort_desc(scored_records(records, q, t)).map_values(|p: (u16, InformationView)| p.1)
}

/// Sort stability: for every score, a recall keeps the records of that
/// score exactly as `scored_records` lists them, which is their order in
/// the underlying collection.
pub proof fn lemma_recall_stable(
    records: Seq<InformationView>,
    q: Seq<char>,
    t: Option<Seq<char>>,
    c: u16,
)
    ensures
        sort_desc(scored_records(records, q, t)).filter(score_is(c)) == scored_records(
            records,
            q,
            t,
        ).filter(score_is(c)),
{
    lemma_sort_desc_stable(scored_records(records, q, t), c);
}

/// Whether the record's tag list contains `tag`, matched exactly.
fn record_has_tag(rec: &Information, tag: &str) -> (b: bool)
    ensures
        b == has_tag(rec@, tag@),
{
    let mut k: usize = 0;
    while k < rec.tags.len()
        invariant
            k <= rec.tags@.len(),
            forall|m: int| 0 <= m < k ==> rec@.tags[m] != tag@,
        decreases rec.tags@.len() - k,
    {
        if str_eq(rec.tags[k].as_str(), tag) {
            proof {
                assert(rec@.tags[k as int] == tag@);
            }
            return true;
        }
        k = k + 1;
    }
    false
}

/// A named store of guarded record cells backed by one directory.
pub struct Wiki {
    pub name: String,
    pub info: Vec<Locked>,
    pub path: String,
}

impl Information {
    /// The record's backing path inside the store's directory, derived
    /// deterministically from its identifier.
    pub fn path(&self, w: &Wiki) -> (r: String)
        ensures
            r@ == record_path_spec(w.path@, self.id),
    {
        record_path(&w.path, self.id)
    }
}

/// The backing path for the record with identifier `id` under `dir`.
pub fn record_path(dir: &String, id: u128) -> (r: String)
    ensures
        r@ == record_path_spec(dir@, id),
{
    let mut r = String::new();
    r.append(dir.as_str());
    push_char(&mut r, '/');
    append_dec(&mut r, id);
    r.append(".rec");
    proof {
        assert(r@ =~= record_path_spec(dir@, id));
    }
    r
}

impl Wiki {
    /// The records currently held, in collection order.
    pub open spec fn records(self) -> Seq<InformationView> {
        self.info@.map_values(|c: Locked| c.value())
    }

    /// Every cell is well formed and no exclusive session is open, so the
    /// whole collection may be read.
    pub open spec fn quiescent(self) -> bool {
        forall|k: int|
            0 <= k < self.info@.len() ==> !(#[trigger] self.info@[k]).is_exclusive()
                && self.info@[k].wf()
    }

    /// An empty store over the given directory (the caller creates the
    /// directory itself).
    pub fn new(name: String, path: String) -> (w: Wiki)
        ensures
            w.records() == Seq::<InformationView>::empty(),
            w.quiescent(),
            w.name@ == name@,
            w.path@ == path@,
    {
        let w = Wiki { name, info: Vec::new(), path };
        proof {
            assert(w.records() =~= Seq::<InformationView>::empty());
        }
        w
    }

    /// The store rebuilt from the contents of the record files found in its
    /// directory, in the order given: a file whose contents do not
    /// deserialize is skipped, not surfaced as an error. `None` stands for
    /// a directory that does not exist yet: the store starts empty (the
    /// caller creates the directory).
    pub fn load_or_create(name: String, path: String, files: Option<&Vec<String>>) -> (w: Wiki)
        ensures
            w.records() == match files {
                Some(fs) => load_spec(fs@.map_values(|f: String| f@)),
                None => Seq::<InformationView>::empty(),
            },
            w.quiescent(),
            w.name@ == name@,
            w.path@ == path@,
    {
        let files = match files {
            Some(fs) => fs,
            None => {
                return Wiki::new(name, path);
            },
        };
        let ghost file_views = files@.map_values(|f: String| f@);
        let mut info: Vec<Locked> = Vec::new();
        let mut i: usize = 0;
        while i < files.len()
            invariant
                i <= files@.len(),
                file_views == files@.map_values(|f: String| f@),
                info@.map_values(|c: Locked| c.value()) == load_spec(file_views.take(i as int)),
                forall|k: int|
                    0 <= k < info@.len() ==> !(#[trigger] info@[k]).is_exclusive()
                        && info@[k].wf(),
            decreases files@.len() - i,
        {
            let ghost before = info@.map_values(|c: Locked| c.value());
            match Locked::load(files[i].as_str()) {
                Ok(cell) => {
                    info.push(cell);
                    proof {
                        assert(info@.map_values(|c: Locked| c.value()) =~= before.push(
                            cell.value(),
                        ));
                    }
                },
                Err(_) => {},
            }
            i = i + 1;
            proof {
                assert(file_views.take(i as int).drop_last() =~= file_views.take(i - 1));
                assert(file_views.take(i as int).last() == file_views[i - 1]);
                assert(file_views[i - 1] == files@[i - 1]@);
            }
        }
        proof {
            assert(file_views.take(files@.len() as int) =~= file_views);
        }
        Wiki { name, info, path }
    }

    /// An owned copy of every record, in collection order.
    pub fn snapshot(&self) -> (r: Vec<Information>)
        requires
            self.quiescent(),
        ensures
            r@.map_values(|x: Information| x@) == self.records(),
    {
        let mut out: Vec<Information> = Vec::new();
        let mut i: usize = 0;
        while i < self.info.len()
            invariant
                self.quiescent(),
                i <= self.info@.len(),
                out@.map_values(|x: Information| x@) == self.records().take(i as int),
            decreases self.info@.len() - i,
        {
            let ghost before = out@.map_values(|x: Information| x@);
            let rec = self.info[i].read().clone();
            out.push(rec);
            i = i + 1;
            proof {
                assert(out@.map_values(|x: Information| x@) =~= before.push(rec@));
                assert(self.records().take(i as int) =~= self.records().take(i - 1).push(
                    self.records()[i - 1],
                ));
            }
        }
        proof {
            assert(self.records().take(self.info@.len() as int) =~= self.records());
        }
        out
    }

    /// Creates a record whose title and body are both `fact`, persists it
    /// into a fresh cell, and appends the cell to the collection. Returns
    /// the new identifier, the path of the new backing file, and the full
    /// serialized form that the caller writes there.
    pub fn commit(&mut self, fact: String, tags: Vec<String>) -> (r: (u128, String, String))
        ensures
            final(self).records() == old(self).records().push(
                InformationView {
                    id: r.0,
                    tags: tags@.map_values(|t: String| t@),
                    name: fact@,
                    data: fact@,
                },
            ),
            final(self).records().len() == old(self).records().len() + 1,
            old(self).quiescent() ==> final(self).quiescent(),
            r.1@ == record_path_spec(old(self).path@, r.0),
            r.2@ == encode_spec(
                InformationView {
                    id: r.0,
                    tags: tags@.map_values(|t: String| t@),
                    name: fact@,
                    data: fact@,
                },
            ),
            final(self).name@ == old(self).name@,
            final(self).path@ == old(self).path@,
    {
        let id = fresh_id();
        let name = fact.clone();
        let rec = Information { id, tags, name, data: fact };
        let path = record_path(&self.path, id);
        let ghost before = self.info@.map_values(|c: Locked| c.value());
        let (cell, payload) = Locked::new(rec);
        self.info.push(cell);
        proof {
            assert(final(self).records() =~= before.push(cell.value()));
        }
        (id, path, payload)
    }

    /// Every record whose tag list contains an exact match for `tag`, in
    /// the collection's current order: exactly that subset, and no others.
    pub fn recall_by_tag(&self, tag: &str) -> (r: Vec<Information>)
        requires
            self.quiescent(),
        ensures
            r@.map_values(|x: Information| x@) == self.records().filter(
                |rv: InformationView| has_tag(rv, tag@),
            ),
    {
        proof {
            reveal_with_fuel(Seq::<_>::filter, 2);
        }
        let mut out: Vec<Information> = Vec::new();
        let mut i: usize = 0;
        while i < self.info.len()
            invariant
                self.quiescent(),
                i <= self.info@.len(),
                out@.map_values(|x: Information| x@) == self.records().take(i as int).filter(
                    |rv: InformationView| has_tag(rv, tag@),
                ),
            decreases self.info@.len() - i,
        {
            proof {
                reveal_with_fuel(Seq::<_>::filter, 2);
            }
            let ghost before = out@.map_values(|x: Information| x@);
            let cell_rec = self.info[i].read();
            if record_has_tag(cell_rec, tag) {
                let rec = cell_rec.clone();
                out.push(rec);
                proof {
                    assert(out@.map_values(|x: Information| x@) =~= before.push(rec@));
                }
            }
            i = i + 1;
            proof {
                assert(self.records().take(i as int).drop_last() =~= self.records().take(i - 1));
                assert(self.records().take(i as int).last() == self.records()[i - 1]);
            }
        }
        proof {
            assert(self.records().take(self.info@.len() as int) =~= self.records());
        }
        out
    }

    /// Ranked fuzzy retrieval: for each record (those carrying the filter
    /// tag, where one is given), the better fuzzy score of the query against
    /// its name and its body; records with no score are excluded; the rest
    /// come back as owned copies, sorted by descending score with a stable
    /// sort. Exactly `recall_spec`; every returned record matches the query
    /// as `subseq_matches` says.
    pub fn recall(&self, query: &str, tag_filter: Option<&str>) -> (r: Vec<Information>)
        requires
            self.quiescent(),
        ensures
            r@.map_values(|x: Information| x@) == recall_spec(
                self.records(),
                query@,
                match tag_filter {
                    Some(t) => Some(t@),
                    None => None,
                },
            ),
            forall|k: int|
                0 <= k < r@.len() ==> crate::retrieve::subseq_matches(
                    (#[trigger] r@[k])@,
                    query@,
                ),
    {
        let ghost t = match tag_filter {
            Some(t) => Some(t@),
            None => None,
        };
        let mut scored: Vec<(u16, Information)> = Vec::new();
        let mut i: usize = 0;
        while i < self.info.len()
            invariant
                self.quiescent(),
                i <= self.info@.len(),
                t == (match tag_filter {
                    Some(tg) => Some(tg@),
                    None => None,
                }),
                crate::retrieve::pairs_view(scored@) == scored_records(
                    self.records().take(i as int),
                    query@,
                    t,
                ),
                forall|k: int|
                    0 <= k < scored@.len() ==> crate::retrieve::subseq_matches(
                        (#[trigger] scored@[k]).1@,
                        query@,
                    ),
            decreases self.info@.len() - i,
        {
            let ghost before = crate::retrieve::pairs_view(scored@);
            let cell_rec = self.info[i].read();
            let tag_ok = match tag_filter {
                Some(tg) => record_has_tag(cell_rec, tg),
                None => true,
            };
            if tag_ok {
                match crate::retrieve::score_record(cell_rec, query) {
                    Some(sc) => {
                        let rec = cell_rec.clone();
                        scored.push((sc, rec));
                        proof {
                            assert(crate::retrieve::pairs_view(scored@) =~= before.push(
                                (sc, rec@),
                            ));
                        }
                    },
                    None => {},
                }
            }
            i = i + 1;
            proof {
                assert(self.records().take(i as int).drop_last() =~= self.records().take(i - 1));
                assert(self.records().take(i as int).last() == self.records()[i - 1]);
                assert(keep_score(self.records()[i - 1], query@, t) == (match t {
                    Some(tg) => if has_tag(self.records()[i - 1], tg) {
                        best_score(self.records()[i - 1], query@)
                    } else {
                        None
                    },
                    None => best_score(self.records()[i - 1], query@),
                }));
            }
        }
        proof {
            assert(self.records().take(self.info@.len() as int) =~= self.records());
        }
        let ghost scored_v = crate::retrieve::pairs_view(scored@);
        let sorted = crate::retrieve::sort_scored(scored);
        proof {
            crate::retrieve::lemma_sort_desc_membership(scored_v);
        }
        let ghost sorted_v = crate::retrieve::pairs_view(sorted@);
        let mut out: Vec<Information> = Vec::new();
        let mut src = sorted;
        let ghost mut j: int = 0;
        while src.len() > 0
            invariant
                0 <= j <= sorted_v.len(),
                crate::retrieve::pairs_view(src@) == sorted_v.skip(j),
                out@.map_values(|x: Information| x@) == sorted_v.map_values(
                    |p: (u16, InformationView)| p.1,
                ).take(j),
                forall|k: int|
                    0 <= k < sorted_v.len() ==> crate::retrieve::subseq_matches(
                        (#[trigger] sorted_v[k]).1,
                        query@,
                    ),
            decreases src@.len(),
        {
            let ghost prev = src@;
            let ghost before = out@.map_values(|x: Information| x@);
            let p = src.remove(0);
            out.push(p.1);
            proof {
                prev.remove_ensures(0);
                assert(crate::retrieve::pairs_view(prev).len() == prev.len());
                assert(sorted_v.skip(j).len() == sorted_v.len() - j);
                assert(j < sorted_v.len());
                assert(crate::retrieve::pairs_view(prev)[0] == sorted_v.skip(j)[0]);
                assert(sorted_v.skip(j)[0] == sorted_v[j]);
                assert(p.1@ == sorted_v[j].1);
                assert forall|m: int|
                    0 <= m < src@.len() implies crate::retrieve::pairs_view(src@)[m]
                    == sorted_v.skip(j + 1)[m] by {
                    assert(src@[m] == prev[m + 1]);
                    assert(crate::retrieve::pairs_view(prev)[m + 1] == sorted_v.skip(j)[m + 1]);
                    assert(sorted_v.skip(j)[m + 1] == sorted_v[j + 1 + m]);
                    assert(sorted_v.skip(j + 1)[m] == sorted_v[j + 1 + m]);
                }
                assert(crate::retrieve::pairs_view(src@) =~= sorted_v.skip(j + 1));
                j = j + 1;
                assert(out@.map_values(|x: Information| x@) =~= before.push(p.1@));
                assert(before.push(p.1@) =~= sorted_v.map_values(|p: (u16, InformationView)| p.1).take(
                    j,
                ));
            }
        }
        proof {
            assert(sorted_v.skip(j).len() == 0);
            assert(j == sorted_v.len());
            assert(sorted_v.map_values(|p: (u16, InformationView)| p.1).take(j) =~= sorted_v.map_values(
                |p: (u16, InformationView)| p.1,
            ));
            assert forall|k: int|
                0 <= k < out@.len() implies crate::retrieve::subseq_matches(
                (#[trigger] out@[k])@,
                query@,
            ) by {
                assert(out@.map_values(|x: Information| x@)[k] == sorted_v.map_values(
                    |p: (u16, InformationView)| p.1,
                )[k]);
                assert(crate::retrieve::subseq_matches(sorted_v[k].1, query@));
            }
        }
        out
    }
}

} // verus!
