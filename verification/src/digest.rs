//! The vault digest: a structured overview of collections, sections, topics
//! and recent additions.
//!
//! The recency window is seven days back from today, by the frontmatter
//! `created` date. Today is a day number (see `dates`), supplied by the caller.

use vstd::prelude::*;
use crate::dates::{parse_ymd, ymd_days};
use crate::format::{display, strs, yaml_value_to_string};
use crate::group::{
    collection_names, count_named, count_named_secs, derefs, docs_in, docs_of, filtered,
    lemma_count_named_bound, lemma_count_named_filtered, lemma_count_named_push,
    lemma_count_named_secs_bound, lemma_count_named_secs_push, name_string, names_of, present,
    sec_derefs, secs_in, secs_of, strictly_sorted,
};
use crate::order::{is_permutation, is_sorted_by, key_view, keys_view, lemma_lex_irreflexive, sorted_positions};
use crate::query::{created_key, opt_view};
use crate::text::{chars_eq, chars_of, string_of, views};
use crate::types::{fm_get, fm_lookup, Document, Section};

verus! {

/// The digest of the vault, or of one collection.
pub struct DigestOutput {
    pub total_documents: usize,
    pub total_sections: usize,
    pub collections: Vec<DigestCollectionOutput>,
}

/// The digest of one collection.
pub struct DigestCollectionOutput {
    pub name: String,
    pub doc_count: usize,
    pub sections: Vec<DigestSectionOutput>,
    pub recent: Vec<DigestRecentOutput>,
}

/// One section of a collection, its topics the titles of its documents.
pub struct DigestSectionOutput {
    pub name: String,
    pub doc_count: usize,
    pub topics: Vec<String>,
    pub hint: Option<String>,
}

/// A document created in the last seven days.
pub struct DigestRecentOutput {
    pub path: String,
    pub title: String,
    pub created: String,
}

/// The hint given to a section with fewer than two documents.
pub open spec fn thin_hint() -> Seq<char> {
    "thin — fewer than 2 documents"@
}

/// The titles of the documents of section `sec`, in order.
pub open spec fn titles_in(ds: Seq<Document>, sec: Seq<char>) -> Seq<Seq<char>>
    decreases ds.len(),
{
    if ds.len() == 0 {
        Seq::empty()
    } else if ds.last().section@ == sec {
        titles_in(ds.drop_last(), sec).push(ds.last().title@)
    } else {
        titles_in(ds.drop_last(), sec)
    }
}

/// The `created` text of a document whose `created` date reads as
/// `YYYY-MM-DD` and falls in the seven days up to `today`: on or after the
/// day seven days before it, and not after it.
pub open spec fn recent_created(d: Document, today: int) -> Option<Seq<char>> {
    match fm_lookup(d.frontmatter@, created_key()) {
        Some(v) => match ymd_days(display(v@)) {
            Some(day) => if today - 7 <= day <= today {
                Some(display(v@))
            } else {
                None
            },
            None => None,
        },
        None => None,
    }
}

/// (path, title, created) of the recent documents, in document order.
pub open spec fn recent_of(ds: Seq<Document>, today: int) -> Seq<(Seq<char>, Seq<char>, Seq<char>)>
    decreases ds.len(),
{
    if ds.len() == 0 {
        Seq::empty()
    } else {
        match recent_created(ds.last(), today) {
            Some(c) => recent_of(ds.drop_last(), today).push((ds.last().path@, ds.last().title@, c)),
            None => recent_of(ds.drop_last(), today),
        }
    }
}

/// The views of recent entries.
pub open spec fn recent_views(v: Seq<DigestRecentOutput>) -> Seq<(Seq<char>, Seq<char>, Seq<char>)> {
    v.map_values(|e: DigestRecentOutput| (e.path@, e.title@, e.created@))
}

/// The ordering key of each recent entry: its `created` text.
pub open spec fn created_keys(items: Seq<(Seq<char>, Seq<char>, Seq<char>)>) -> Seq<Seq<Seq<char>>> {
    items.map_values(|it: (Seq<char>, Seq<char>, Seq<char>)| seq![it.2])
}

/// `out` is `items` in the order of a stable sort by `created`, newest first.
pub open spec fn sorted_recent(out: Seq<DigestRecentOutput>, items: Seq<(Seq<char>, Seq<char>, Seq<char>)>) -> bool {
    exists|p: Seq<usize>|
        {
            &&& is_permutation(p, items.len())
            &&& is_sorted_by(p, created_keys(items), true)
            &&& out.len() == items.len()
            &&& forall|k: int|
                0 <= k < out.len() ==> (#[trigger] recent_views(out)[k]) == items[p[k] as int]
        }
}

/// The digest of section `s` over the documents `ds` of its collection.
pub open spec fn section_digest(out: DigestSectionOutput, ds: Seq<Document>, s: Section) -> bool {
    let ts = titles_in(ds, s.name@);
    &&& out.name@ == s.name@
    &&& strs(out.topics@) == ts
    &&& out.doc_count == ts.len()
    &&& match out.hint {
        Some(h) => ts.len() < 2 && h@ == thin_hint(),
        None => ts.len() >= 2,
    }
}

/// The digest of collection `name`.
pub open spec fn collection_digest(
    out: DigestCollectionOutput,
    documents: Seq<Document>,
    sections: Seq<Section>,
    name: Seq<char>,
    today: int,
) -> bool {
    let ds = docs_in(documents, name);
    let ss = secs_in(sections, name);
    &&& out.name@ == name
    &&& out.doc_count == ds.len()
    &&& out.sections@.len() == ss.len()
    &&& forall|j: int| 0 <= j < ss.len() ==> section_digest(#[trigger] out.sections@[j], ds, ss[j])
    &&& sorted_recent(out.recent@, recent_of(ds, today))
}

/// The names of the digested collections.
pub open spec fn digest_names(cs: Seq<DigestCollectionOutput>) -> Seq<Seq<char>> {
    cs.map_values(|c: DigestCollectionOutput| c.name@)
}

/// The sum of the collections' document counts.
pub open spec fn sum_docs(cs: Seq<DigestCollectionOutput>) -> nat
    decreases cs.len(),
{
    if cs.len() == 0 {
        0
    } else {
        sum_docs(cs.drop_last()) + (cs.last().doc_count as nat)
    }
}

/// The sum of the collections' section counts.
pub open spec fn sum_secs(cs: Seq<DigestCollectionOutput>) -> nat
    decreases cs.len(),
{
    if cs.len() == 0 {
        0
    } else {
        sum_secs(cs.drop_last()) + cs.last().sections@.len()
    }
}

/// The digest: one entry per collection of the documents that pass the
/// filter, in name order, with totals.
pub open spec fn digest_of(
    out: DigestOutput,
    documents: Seq<Document>,
    sections: Seq<Section>,
    filter: Option<Seq<char>>,
    today: int,
) -> bool {
    &&& names_of(digest_names(out.collections@), documents, filter)
    &&& forall|k: int|
        0 <= k < out.collections@.len() ==> collection_digest(
            #[trigger] out.collections@[k],
            documents,
            sections,
            out.collections@[k].name@,
            today,
        )
    &&& out.total_documents == sum_docs(out.collections@)
    &&& out.total_sections == sum_secs(out.collections@)
}

proof fn lemma_count_named_empty(docs: Seq<Document>, ns: Seq<Seq<char>>)
    requires
        ns.len() == 0,
    ensures
        count_named(docs, ns) == 0,
    decreases docs.len(),
{
    if docs.len() > 0 {
        lemma_count_named_empty(docs.drop_last(), ns);
    }
}

proof fn lemma_count_named_secs_empty(secs: Seq<Section>, ns: Seq<Seq<char>>)
    requires
        ns.len() == 0,
    ensures
        count_named_secs(secs, ns) == 0,
    decreases secs.len(),
{
    if secs.len() > 0 {
        lemma_count_named_secs_empty(secs.drop_last(), ns);
    }
}

fn thin_hint_exec() -> (r: String)
    ensures
        r@ == thin_hint(),
{
    let c = chars_of("thin — fewer than 2 documents");
    string_of(c.as_slice())
}

fn digest_section(ds: &Vec<&Document>, s: &Section) -> (r: DigestSectionOutput)
    ensures
        section_digest(r, derefs(ds@), *s),
{
    let name = chars_of(s.name.as_str());
    let mut topics: Vec<String> = Vec::new();
    let mut t: usize = 0;
    while t < ds.len()
        invariant
            t <= ds@.len(),
            name@ == s.name@,
            strs(topics@) == titles_in(derefs(ds@).take(t as int), s.name@),
        decreases ds.len() - t,
    {
        let ghost pre = derefs(ds@).take(t as int);
        let ghost post = derefs(ds@).take(t + 1);
        assert(post.drop_last() =~= pre);
        let d = ds[t];
        assert(post.last() == *d);
        let sec = chars_of(d.section.as_str());
        let ghost before = topics@;
        if chars_eq(sec.as_slice(), name.as_slice()) {
            topics.push(d.title.clone());
            assert(strs(topics@) =~= strs(before).push(d.title@));
        }
        t = t + 1;
    }
    assert(derefs(ds@).take(ds@.len() as int) =~= derefs(ds@));
    let n = topics.len();
    let hint = if n < 2 {
        Some(thin_hint_exec())
    } else {
        None
    };
    assert(strs(topics@).len() == topics@.len());
    DigestSectionOutput { name: s.name.clone(), doc_count: n, topics, hint }
}

/// The `created` text of a document, when it is recent.
fn recent_created_exec(d: &Document, today: i32) -> (r: Option<String>)
    ensures
        match r {
            Some(c) => recent_created(*d, today as int) == Some(c@),
            None => recent_created(*d, today as int) is None,
        },
{
    let key = chars_of("created");
    proof {
        reveal_strlit("created");
    }
    assert(key@ =~= created_key());
    match fm_get(&d.frontmatter, key.as_slice()) {
        Some(v) => {
            let text = yaml_value_to_string(v);
            match parse_ymd(text.as_str()) {
                Some(day) => {
                    if (day as i64) + 7 >= (today as i64) && (day as i64) <= (today as i64) {
                        Some(text)
                    } else {
                        None
                    }
                },
                None => None,
            }
        },
        None => None,
    }
}

fn digest_recent(ds: &Vec<&Document>, today: i32) -> (r: Vec<DigestRecentOutput>)
    ensures
        sorted_recent(r@, recent_of(derefs(ds@), today as int)),
{
    let mut items: Vec<DigestRecentOutput> = Vec::new();
    let mut keys: Vec<Vec<Vec<char>>> = Vec::new();
    let mut t: usize = 0;
    while t < ds.len()
        invariant
            t <= ds@.len(),
            recent_views(items@) == recent_of(derefs(ds@).take(t as int), today as int),
            keys_view(keys@) == created_keys(recent_views(items@)),
        decreases ds.len() - t,
    {
        let ghost pre = derefs(ds@).take(t as int);
        let ghost post = derefs(ds@).take(t + 1);
        assert(post.drop_last() =~= pre);
        let d = ds[t];
        assert(post.last() == *d);
        let ghost before = items@;
        let ghost kbefore = keys@;
        match recent_created_exec(d, today) {
            Some(c) => {
                let mut key: Vec<Vec<char>> = Vec::new();
                key.push(chars_of(c.as_str()));
                assert(key_view(key@) =~= seq![c@]);
                items.push(DigestRecentOutput { path: d.path.clone(), title: d.title.clone(), created: c });
                keys.push(key);
                assert(recent_views(items@) =~= recent_views(before).push((d.path@, d.title@, c@)));
                assert(keys_view(keys@) =~= keys_view(kbefore).push(key_view(key@)));
                assert(keys_view(keys@) =~= created_keys(recent_views(items@)));
            },
            None => {},
        }
        t = t + 1;
    }
    assert(derefs(ds@).take(ds@.len() as int) =~= derefs(ds@));
    let p = sorted_positions(&keys, true);
    let ghost iv = recent_views(items@);
    let mut out: Vec<DigestRecentOutput> = Vec::new();
    let mut k: usize = 0;
    while k < p.len()
        invariant
            k <= p@.len(),
            iv == recent_views(items@),
            is_permutation(p@, keys@.len() as nat),
            keys@.len() == items@.len(),
            out@.len() == k,
            forall|q: int| 0 <= q < k ==> (#[trigger] recent_views(out@)[q]) == iv[p@[q] as int],
        decreases p.len() - k,
    {
        let e = &items[p[k]];
        assert(iv[p@[k as int] as int] == (e.path@, e.title@, e.created@));
        let ghost before = out@;
        let entry = DigestRecentOutput { path: e.path.clone(), title: e.title.clone(), created: e.created.clone() };
        out.push(entry);
        proof {
            assert(recent_views(out@)[k as int] == (entry.path@, entry.title@, entry.created@));
            assert forall|q: int| 0 <= q < k + 1 implies (#[trigger] recent_views(out@)[q]) == iv[p@[q] as int] by {
                if q < k {
                    assert(out@[q] == before[q]);
                    assert(recent_views(out@)[q] == recent_views(before)[q]);
                }
            }
        }
        k = k + 1;
    }
    assert(keys_view(keys@) == created_keys(iv));
    assert(sorted_recent(out@, iv));
    out
}

fn digest_collection(
    documents: &Vec<Document>,
    sections: &Vec<Section>,
    name: &Vec<char>,
    today: i32,
) -> (r: DigestCollectionOutput)
    ensures
        collection_digest(r, documents@, sections@, name@, today as int),
{
    let ds = docs_of(documents, name.as_slice());
    let ss = secs_of(sections, name.as_slice());
    let mut section_outputs: Vec<DigestSectionOutput> = Vec::new();
    let mut j: usize = 0;
    while j < ss.len()
        invariant
            j <= ss@.len(),
            derefs(ds@) == docs_in(documents@, name@),
            sec_derefs(ss@) == secs_in(sections@, name@),
            section_outputs@.len() == j,
            forall|q: int|
                0 <= q < j ==> section_digest(#[trigger] section_outputs@[q], derefs(ds@), sec_derefs(ss@)[q]),
        decreases ss.len() - j,
    {
        let o = digest_section(&ds, ss[j]);
        assert(sec_derefs(ss@)[j as int] == *ss@[j as int]);
        section_outputs.push(o);
        j = j + 1;
    }
    let recent = digest_recent(&ds, today);
    assert(derefs(ds@).len() == ds@.len());
    DigestCollectionOutput { name: name_string(name), doc_count: ds.len(), sections: section_outputs, recent }
}

/// Builds the digest of the documents that pass the collection filter:
/// per collection (in name order) its document count, its sections (in the
/// order given) with their topics (the titles of their documents, in order)
/// and a hint for sections with fewer than two documents, and the documents
/// created in the seven days up to `today` (a day number), newest first.
pub fn format_digest(
    documents: &Vec<Document>,
    sections: &Vec<Section>,
    collection_filter: Option<&str>,
    today: i32,
) -> (r: DigestOutput)
    ensures
        digest_of(r, documents@, sections@, opt_view(collection_filter), today as int),
        r.total_documents == filtered(documents@, opt_view(collection_filter)).len(),
{
    let ghost f = opt_view(collection_filter);
    let names = collection_names(documents, collection_filter);
    let ghost ns = views(names@);
    proof {
        lemma_count_named_empty(documents@, ns.take(0));
        lemma_count_named_secs_empty(sections@, ns.take(0));
    }
    let mut collections: Vec<DigestCollectionOutput> = Vec::new();
    let mut total_documents: usize = 0;
    let mut total_sections: usize = 0;
    let mut k: usize = 0;
    while k < names.len()
        invariant
            k <= names@.len(),
            ns == views(names@),
            f == opt_view(collection_filter),
            names_of(ns, documents@, f),
            collections@.len() == k,
            forall|q: int| 0 <= q < k ==> (#[trigger] collections@[q]).name@ == ns[q],
            forall|q: int|
                0 <= q < k ==> collection_digest(#[trigger] collections@[q], documents@, sections@, collections@[q].name@, today as int),
            total_documents == sum_docs(collections@),
            total_documents == count_named(documents@, ns.take(k as int)),
            total_sections == sum_secs(collections@),
            total_sections == count_named_secs(sections@, ns.take(k as int)),
        decreases names.len() - k,
    {
        let c = digest_collection(documents, sections, &names[k], today);
        proof {
            assert(ns[k as int] == names@[k as int]@);
            let pre = ns.take(k as int);
            assert(ns.take(k + 1) =~= pre.push(ns[k as int]));
            if pre.contains(ns[k as int]) {
                let q = choose|q: int| 0 <= q < pre.len() && pre[q] == ns[k as int];
                assert(crate::order::lex_lt(ns[q], ns[k as int]));
                lemma_lex_irreflexive(ns[k as int]);
            }
            lemma_count_named_push(documents@, pre, ns[k as int]);
            lemma_count_named_secs_push(sections@, pre, ns[k as int]);
            lemma_count_named_bound(documents@, ns.take(k + 1));
            lemma_count_named_secs_bound(sections@, ns.take(k + 1));
            assert(c.doc_count == docs_in(documents@, ns[k as int]).len());
            assert(c.sections@.len() == secs_in(sections@, ns[k as int]).len());
            assert(total_documents + c.doc_count <= documents@.len());
            assert(documents@.len() == documents.len());
            assert(sections@.len() == sections.len());
            assert(total_sections + c.sections@.len() <= sections@.len());
        }
        let ghost before = collections@;
        total_documents = total_documents + c.doc_count;
        total_sections = total_sections + c.sections.len();
        collections.push(c);
        proof {
            assert(collections@.drop_last() =~= before);
        }
        k = k + 1;
    }
    proof {
        assert(ns.take(ns.len() as int) =~= ns);
        assert(digest_names(collections@) =~= ns);
        assert forall|u: int| 0 <= u < documents@.len() implies (ns.contains((#[trigger] documents@[u]).collection@)
            <==> crate::group::passes(documents@[u].collection@, f)) by {
            if crate::group::passes(documents@[u].collection@, f) {
                assert(present(documents@, f, documents@[u].collection@));
            }
        }
        lemma_count_named_filtered(documents@, ns, f);
    }
    DigestOutput { total_documents, total_sections, collections }
}

} // verus!
