//! The vault health report: document quality and hygiene checks.
//!
//! Per collection: documents without a `created` or `updated` field or
//! without tags, stale documents (last `updated`, else `created`, date before
//! the cutoff), stubs (fewer words than the minimum), orphans (no inbound
//! wiki-link, reported only when the documents hold wiki-links at all) and
//! broken wiki-links (targets that resolve to no document).
//!
//! A wiki-link `[[target|alias]]` or `[[target#heading]]` resolves by its
//! target, ignoring case, against document titles, paths and paths without
//! `.md`, and then with `.md` appended; when several documents share an
//! identifier, the last one wins.

use vstd::prelude::*;
use crate::dates::{parse_ymd, ymd_days};
use crate::format::{display, yaml_value_to_string};
use crate::group::{
    collection_names, count_named, derefs, filter_docs, filtered, idx_in, indices_in,
    lemma_count_named_bound, lemma_count_named_push, lemma_filtered, lemma_idx_in, name_string,
    names_of, passes, present, strictly_sorted,
};
use crate::hash_index::pair_views;
use crate::order::{lemma_lex_irreflexive, lex_lt};
use crate::query::{created_key, opt_view};
use crate::text::{
    chars_eq, chars_of, find_char, find_char_exec, lowercase, push_chars, slice_chars, string_of,
    to_lowercase, trim, trim_exec, views, word_count, word_count_exec,
};
use crate::types::{fm_get, fm_lookup, Document};
use crate::write::{trim_md, trim_md_exec};

verus! {

/// The health report.
pub struct HealthOutput {
    pub total_documents_checked: usize,
    pub total_issues: usize,
    pub collections: Vec<HealthCollectionOutput>,
}

/// The findings for one collection.
pub struct HealthCollectionOutput {
    pub name: String,
    pub doc_count: usize,
    pub issues: usize,
    pub missing_created: Vec<HealthDocRef>,
    pub missing_updated: Vec<HealthDocRef>,
    pub no_tags: Vec<HealthDocRef>,
    pub stale: Vec<HealthStaleRef>,
    pub stubs: Vec<HealthStubRef>,
    pub orphans: Vec<HealthDocRef>,
    pub broken_links: Vec<HealthBrokenLinkRef>,
}

/// A document named by path and title.
pub struct HealthDocRef {
    pub path: String,
    pub title: String,
}

/// A stale document and the date it was last touched.
pub struct HealthStaleRef {
    pub path: String,
    pub title: String,
    pub last_date: String,
}

/// A stub and its word count.
pub struct HealthStubRef {
    pub path: String,
    pub title: String,
    pub word_count: usize,
}

/// A wiki-link whose target resolves to no document.
pub struct HealthBrokenLinkRef {
    pub source: String,
    pub target: String,
    pub raw: String,
}

// ---------------------------------------------------------------------------
// Wiki-links
// ---------------------------------------------------------------------------

/// `updated`
pub open spec fn updated_key() -> Seq<char> {
    seq!['u', 'p', 'd', 'a', 't', 'e', 'd']
}

/// `.md`
pub open spec fn md_suffix() -> Seq<char> {
    seq!['.', 'm', 'd']
}

/// The wiki-link pattern: `[[`, one or more characters other than `]`
/// (captured), then `]]`.
pub open spec fn wiki_link_pattern() -> Seq<char> {
    "\\[\\[([^\\]]+)\\]\\]"@
}

/// The wiki-links found reading `t` from position `i`, as the wiki-link
/// pattern's leftmost, non-overlapping matches: where `[[` opens and the run
/// after it up to the first `]` is non-empty and closed by `]]`, that link
/// (whole match, inner text) and then the links after it; any other position
/// is passed over.
pub open spec fn wiki_links_from(t: Seq<char>, i: int) -> Seq<(Seq<char>, Seq<char>)>
    decreases t.len() - i,
{
    if i < 0 || i + 2 > t.len() {
        Seq::empty()
    } else {
        let j = i + 2 + find_char(t.skip(i + 2), ']');
        if t[i] == '[' && t[i + 1] == '[' && j > i + 2 && j + 1 < t.len() && t[j + 1] == ']' {
            seq![(t.subrange(i, j + 2), t.subrange(i + 2, j))] + wiki_links_from(t, j + 2)
        } else {
            wiki_links_from(t, i + 1)
        }
    }
}

/// The wiki-links of a text: (whole match, inner text) for each match.
pub open spec fn wiki_links(t: Seq<char>) -> Seq<(Seq<char>, Seq<char>)> {
    wiki_links_from(t, 0)
}

/// Calls `regex::Regex::new(pattern)` and `Regex::captures_iter(text)`,
/// turning each match into (whole match, group 1). It takes only the
/// wiki-link pattern, which compiles and whose group 1 takes part in every
/// match (indexing a group that did not take part panics). The contract
/// claims that the pattern compiles and that the matches are the
/// leftmost, non-overlapping matches of that pattern, `wiki_links`.
#[verifier::external_body]
fn captures_of(pattern: &str, text: &str) -> (r: Option<Vec<(String, String)>>)
    requires
        pattern@ == wiki_link_pattern(),
    ensures
        r is Some,
        r matches Some(v) ==> pair_views(v@) == wiki_links(text@),
{
    match regex::Regex::new(pattern) {
        Ok(re) => Some(re.captures_iter(text).map(|c| (c[0].to_string(), c[1].to_string())).collect()),
        Err(_) => None,
    }
}

/// The wiki-links of a document body: (whole match, inner text) for each.
pub open spec fn links_of(body: Seq<char>) -> Seq<(Seq<char>, Seq<char>)> {
    wiki_links(body)
}

/// The target of a link's inner text: before any `|` (alias), before any
/// `#` (heading), trimmed.
pub open spec fn link_target(inner: Seq<char>) -> Seq<char> {
    let a = inner.take(find_char(inner, '|') as int);
    trim(a.take(find_char(a, '#') as int))
}

/// `key` is one of the identifiers of `d`: its title, its path, or its path
/// without `.md`, all lower-cased.
pub open spec fn is_id_of(d: Document, key: Seq<char>) -> bool {
    key == lowercase(d.title@) || key == lowercase(d.path@) || key == lowercase(trim_md(d.path@))
}

/// The last document that has `key` as an identifier.
pub open spec fn lookup_id(ds: Seq<Document>, key: Seq<char>) -> Option<int>
    decreases ds.len(),
{
    if ds.len() == 0 {
        None
    } else if is_id_of(ds.last(), key) {
        Some(ds.len() - 1)
    } else {
        lookup_id(ds.drop_last(), key)
    }
}

/// A found document is in range.
pub proof fn lemma_lookup_id(ds: Seq<Document>, key: Seq<char>)
    ensures
        lookup_id(ds, key) matches Some(i) ==> 0 <= i < ds.len(),
    decreases ds.len(),
{
    if ds.len() > 0 {
        lemma_lookup_id(ds.drop_last(), key);
    }
}

/// The document a link target resolves to: by its lower-cased form, else
/// with `.md` appended.
pub open spec fn resolve_link(ds: Seq<Document>, target: Seq<char>) -> Option<int> {
    let t = lowercase(target);
    match lookup_id(ds, t) {
        Some(i) => Some(i),
        None => lookup_id(ds, t + md_suffix()),
    }
}

/// Link `c` of document `s` points at document `t`, another document.
pub open spec fn links_to(ds: Seq<Document>, ls: Seq<Seq<(Seq<char>, Seq<char>)>>, t: int, s: int, c: int) -> bool {
    &&& 0 <= s < ls.len()
    &&& 0 <= c < ls[s].len()
    &&& t != s
    &&& resolve_link(ds, link_target(ls[s][c].1)) == Some(t)
}

/// Some other document links to document `t`.
pub open spec fn has_inbound(ds: Seq<Document>, ls: Seq<Seq<(Seq<char>, Seq<char>)>>, t: int) -> bool {
    exists|s: int, c: int| links_to(ds, ls, t, s, c)
}

/// Some document holds a wiki-link.
pub open spec fn any_links(ls: Seq<Seq<(Seq<char>, Seq<char>)>>) -> bool {
    exists|s: int| 0 <= s < ls.len() && (#[trigger] ls[s]).len() > 0
}

/// (target, whole match) of the links among `caps` that resolve to nothing.
pub open spec fn broken_of(ds: Seq<Document>, caps: Seq<(Seq<char>, Seq<char>)>) -> Seq<(Seq<char>, Seq<char>)>
    decreases caps.len(),
{
    if caps.len() == 0 {
        Seq::empty()
    } else {
        let t = link_target(caps.last().1);
        if resolve_link(ds, t) is None {
            broken_of(ds, caps.drop_last()).push((t, caps.last().0))
        } else {
            broken_of(ds, caps.drop_last())
        }
    }
}

// ---------------------------------------------------------------------------
// Findings per collection
// ---------------------------------------------------------------------------

/// (path, title) of a document.
pub open spec fn doc_ref(d: Document) -> (Seq<char>, Seq<char>) {
    (d.path@, d.title@)
}

/// The documents at positions `ix` without frontmatter field `key`.
pub open spec fn missing_field(ds: Seq<Document>, ix: Seq<int>, key: Seq<char>) -> Seq<(Seq<char>, Seq<char>)>
    decreases ix.len(),
{
    if ix.len() == 0 {
        Seq::empty()
    } else if fm_lookup(ds[ix.last()].frontmatter@, key) is None {
        missing_field(ds, ix.drop_last(), key).push(doc_ref(ds[ix.last()]))
    } else {
        missing_field(ds, ix.drop_last(), key)
    }
}

/// The documents at positions `ix` without tags.
pub open spec fn untagged(ds: Seq<Document>, ix: Seq<int>) -> Seq<(Seq<char>, Seq<char>)>
    decreases ix.len(),
{
    if ix.len() == 0 {
        Seq::empty()
    } else if ds[ix.last()].tags@.len() == 0 {
        untagged(ds, ix.drop_last()).push(doc_ref(ds[ix.last()]))
    } else {
        untagged(ds, ix.drop_last())
    }
}

/// The text of the date a document was last touched: `updated`, else `created`.
pub open spec fn last_date(d: Document) -> Option<Seq<char>> {
    match fm_lookup(d.frontmatter@, updated_key()) {
        Some(v) => Some(display(v@)),
        None => match fm_lookup(d.frontmatter@, created_key()) {
            Some(v) => Some(display(v@)),
            None => None,
        },
    }
}

/// The last date of a document, when it reads as `YYYY-MM-DD` and falls
/// before the cutoff day.
pub open spec fn stale_date(d: Document, cutoff: int) -> Option<Seq<char>> {
    match last_date(d) {
        Some(t) => match ymd_days(t) {
            Some(day) => if day < cutoff {
                Some(t)
            } else {
                None
            },
            None => None,
        },
        None => None,
    }
}

/// Staleness goes by `updated` when a document has that field, and by
/// `created` only when it has not: a document whose `updated` date falls on
/// or after the cutoff day is never stale, whatever its `created` says; a
/// stale document is reported with the date it was judged by; a document
/// with neither field, or whose date does not read as `YYYY-MM-DD`, is not
/// stale.
pub proof fn lemma_staleness_date(d: Document, cutoff: int)
    ensures
        fm_lookup(d.frontmatter@, updated_key()) matches Some(u) ==> match ymd_days(display(u@)) {
            Some(day) => stale_date(d, cutoff) == if day < cutoff {
                Some(display(u@))
            } else {
                None::<Seq<char>>
            },
            None => stale_date(d, cutoff) is None,
        },
        fm_lookup(d.frontmatter@, updated_key()) is None ==> match fm_lookup(d.frontmatter@, created_key()) {
            Some(c) => match ymd_days(display(c@)) {
                Some(day) => stale_date(d, cutoff) == if day < cutoff {
                    Some(display(c@))
                } else {
                    None::<Seq<char>>
                },
                None => stale_date(d, cutoff) is None,
            },
            None => stale_date(d, cutoff) is None,
        },
{
}

/// The stale documents at positions `ix`, with their last dates.
pub open spec fn stale_of(ds: Seq<Document>, ix: Seq<int>, cutoff: int) -> Seq<(Seq<char>, Seq<char>, Seq<char>)>
    decreases ix.len(),
{
    if ix.len() == 0 {
        Seq::empty()
    } else {
        let d = ds[ix.last()];
        match stale_date(d, cutoff) {
            Some(t) => stale_of(ds, ix.drop_last(), cutoff).push((d.path@, d.title@, t)),
            None => stale_of(ds, ix.drop_last(), cutoff),
        }
    }
}

/// The documents at positions `ix` with fewer than `min` words, with their
/// word counts.
pub open spec fn stubs_of(ds: Seq<Document>, ix: Seq<int>, min: int) -> Seq<(Seq<char>, Seq<char>, nat)>
    decreases ix.len(),
{
    if ix.len() == 0 {
        Seq::empty()
    } else {
        let d = ds[ix.last()];
        if word_count(d.body@) < min {
            stubs_of(ds, ix.drop_last(), min).push((d.path@, d.title@, word_count(d.body@)))
        } else {
            stubs_of(ds, ix.drop_last(), min)
        }
    }
}

/// The documents at positions `ix` that no other document links to, when
/// there are wiki-links at all.
pub open spec fn orphans_of(
    ds: Seq<Document>,
    ls: Seq<Seq<(Seq<char>, Seq<char>)>>,
    ix: Seq<int>,
) -> Seq<(Seq<char>, Seq<char>)>
    decreases ix.len(),
{
    if ix.len() == 0 {
        Seq::empty()
    } else if any_links(ls) && !has_inbound(ds, ls, ix.last()) {
        orphans_of(ds, ls, ix.drop_last()).push(doc_ref(ds[ix.last()]))
    } else {
        orphans_of(ds, ls, ix.drop_last())
    }
}

/// (source path, target, whole match) of the broken links of the documents
/// at positions `ix`, document by document.
pub open spec fn broken_in(
    ds: Seq<Document>,
    ls: Seq<Seq<(Seq<char>, Seq<char>)>>,
    ix: Seq<int>,
) -> Seq<(Seq<char>, Seq<char>, Seq<char>)>
    decreases ix.len(),
{
    if ix.len() == 0 {
        Seq::empty()
    } else {
        let s = ix.last();
        broken_in(ds, ls, ix.drop_last()) + broken_of(ds, ls[s]).map_values(
            |b: (Seq<char>, Seq<char>)| (ds[s].path@, b.0, b.1),
        )
    }
}

pub open spec fn ref_views(v: Seq<HealthDocRef>) -> Seq<(Seq<char>, Seq<char>)> {
    v.map_values(|r: HealthDocRef| (r.path@, r.title@))
}

pub open spec fn stale_views(v: Seq<HealthStaleRef>) -> Seq<(Seq<char>, Seq<char>, Seq<char>)> {
    v.map_values(|r: HealthStaleRef| (r.path@, r.title@, r.last_date@))
}

pub open spec fn stub_views(v: Seq<HealthStubRef>) -> Seq<(Seq<char>, Seq<char>, nat)> {
    v.map_values(|r: HealthStubRef| (r.path@, r.title@, r.word_count as nat))
}

pub open spec fn broken_views(v: Seq<HealthBrokenLinkRef>) -> Seq<(Seq<char>, Seq<char>, Seq<char>)> {
    v.map_values(|r: HealthBrokenLinkRef| (r.source@, r.target@, r.raw@))
}

/// The number of findings of a collection.
pub open spec fn issue_count(out: HealthCollectionOutput) -> nat {
    out.missing_created@.len() + out.missing_updated@.len() + out.no_tags@.len() + out.stale@.len()
        + out.stubs@.len() + out.orphans@.len() + out.broken_links@.len()
}

/// The findings for collection `name` among the checked documents `ds`,
/// whose wiki-links are `ls`.
pub open spec fn collection_health(
    out: HealthCollectionOutput,
    ds: Seq<Document>,
    ls: Seq<Seq<(Seq<char>, Seq<char>)>>,
    name: Seq<char>,
    cutoff: int,
    min_words: int,
) -> bool {
    let ix = idx_in(ds, name);
    &&& out.name@ == name
    &&& out.doc_count == ix.len()
    &&& ref_views(out.missing_created@) == missing_field(ds, ix, created_key())
    &&& ref_views(out.missing_updated@) == missing_field(ds, ix, updated_key())
    &&& ref_views(out.no_tags@) == untagged(ds, ix)
    &&& stale_views(out.stale@) == stale_of(ds, ix, cutoff)
    &&& stub_views(out.stubs@) == stubs_of(ds, ix, min_words)
    &&& ref_views(out.orphans@) == orphans_of(ds, ls, ix)
    &&& broken_views(out.broken_links@) == broken_in(ds, ls, ix)
    &&& out.issues == issue_count(out)
}

pub open spec fn health_names(cs: Seq<HealthCollectionOutput>) -> Seq<Seq<char>> {
    cs.map_values(|c: HealthCollectionOutput| c.name@)
}

pub open spec fn sum_checked(cs: Seq<HealthCollectionOutput>) -> nat
    decreases cs.len(),
{
    if cs.len() == 0 {
        0
    } else {
        sum_checked(cs.drop_last()) + (cs.last().doc_count as nat)
    }
}

pub open spec fn sum_issues(cs: Seq<HealthCollectionOutput>) -> nat
    decreases cs.len(),
{
    if cs.len() == 0 {
        0
    } else {
        sum_issues(cs.drop_last()) + (cs.last().issues as nat)
    }
}

/// The health report of the documents that pass the filter, whose
/// wiki-links are `ls` (one list per checked document, in order).
pub open spec fn health_of(
    out: HealthOutput,
    documents: Seq<Document>,
    filter: Option<Seq<char>>,
    ls: Seq<Seq<(Seq<char>, Seq<char>)>>,
    cutoff: int,
    min_words: int,
) -> bool {
    let ds = filtered(documents, filter);
    &&& names_of(health_names(out.collections@), documents, filter)
    &&& forall|k: int|
        0 <= k < out.collections@.len() ==> collection_health(
            #[trigger] out.collections@[k],
            ds,
            ls,
            out.collections@[k].name@,
            cutoff,
            min_words,
        )
    &&& out.total_documents_checked == sum_checked(out.collections@)
    &&& out.total_documents_checked == ds.len()
    &&& out.total_issues == sum_issues(out.collections@)
}

// ---------------------------------------------------------------------------
// The link graph
// ---------------------------------------------------------------------------

/// The target of a link's inner text.
fn link_target_exec(inner: &str) -> (r: String)
    ensures
        r@ == link_target(inner@),
{
    let cs = chars_of(inner);
    let bar = find_char_exec(cs.as_slice(), '|');
    let a = slice_chars(cs.as_slice(), 0, bar);
    assert(a@ =~= inner@.take(find_char(inner@, '|') as int));
    let hash = find_char_exec(a.as_slice(), '#');
    let b = slice_chars(a.as_slice(), 0, hash);
    assert(b@ =~= a@.take(find_char(a@, '#') as int));
    let t = trim_exec(b.as_slice());
    string_of(t.as_slice())
}

/// The lower-cased identifiers of each document: title, path, path
/// without `.md`.
pub open spec fn ids_of(ids: Seq<(Vec<char>, Vec<char>, Vec<char>)>, ds: Seq<Document>) -> bool {
    &&& ids.len() == ds.len()
    &&& forall|i: int|
        0 <= i < ids.len() ==> {
            &&& (#[trigger] ids[i]).0@ == lowercase(ds[i].title@)
            &&& ids[i].1@ == lowercase(ds[i].path@)
            &&& ids[i].2@ == lowercase(trim_md(ds[i].path@))
        }
}

fn doc_ids(ds: &Vec<&Document>) -> (r: Vec<(Vec<char>, Vec<char>, Vec<char>)>)
    ensures
        ids_of(r@, derefs(ds@)),
{
    let mut r: Vec<(Vec<char>, Vec<char>, Vec<char>)> = Vec::new();
    let mut i: usize = 0;
    while i < ds.len()
        invariant
            i <= ds@.len(),
            r@.len() == i,
            forall|k: int|
                0 <= k < i ==> {
                    &&& (#[trigger] r@[k]).0@ == lowercase(derefs(ds@)[k].title@)
                    &&& r@[k].1@ == lowercase(derefs(ds@)[k].path@)
                    &&& r@[k].2@ == lowercase(trim_md(derefs(ds@)[k].path@))
                },
        decreases ds.len() - i,
    {
        let d = ds[i];
        assert(derefs(ds@)[i as int] == *d);
        let t = chars_of(to_lowercase(d.title.as_str()).as_str());
        let p = chars_of(to_lowercase(d.path.as_str()).as_str());
        let bare = trim_md_exec(chars_of(d.path.as_str()).as_slice());
        let q = chars_of(to_lowercase(string_of(bare.as_slice()).as_str()).as_str());
        r.push((t, p, q));
        i = i + 1;
    }
    r
}

/// The last document that has `key` as an identifier.
fn lookup_id_exec(ids: &Vec<(Vec<char>, Vec<char>, Vec<char>)>, key: &[char], Ghost(ds): Ghost<Seq<Document>>) -> (r: Option<usize>)
    requires
        ids_of(ids@, ds),
    ensures
        match r {
            Some(i) => lookup_id(ds, key@) == Some(i as int),
            None => lookup_id(ds, key@) is None,
        },
{
    let mut i: usize = ids.len();
    assert(ds.take(ds.len() as int) =~= ds);
    while i > 0
        invariant
            i <= ids@.len(),
            ids_of(ids@, ds),
            lookup_id(ds, key@) == lookup_id(ds.take(i as int), key@),
        decreases i,
    {
        let e = &ids[i - 1];
        let ghost pre = ds.take(i as int);
        assert(pre.last() == ds[i - 1]);
        assert(pre.drop_last() =~= ds.take(i - 1));
        if chars_eq(e.0.as_slice(), key) || chars_eq(e.1.as_slice(), key) || chars_eq(e.2.as_slice(), key) {
            return Some(i - 1);
        }
        i = i - 1;
    }
    None
}

/// The document a link target resolves to.
fn resolve_link_exec(ids: &Vec<(Vec<char>, Vec<char>, Vec<char>)>, target: &str, Ghost(ds): Ghost<Seq<Document>>) -> (r: Option<usize>)
    requires
        ids_of(ids@, ds),
    ensures
        match r {
            Some(i) => resolve_link(ds, target@) == Some(i as int) && i < ds.len(),
            None => resolve_link(ds, target@) is None,
        },
{
    proof {
        lemma_lookup_id(ds, lowercase(target@));
        lemma_lookup_id(ds, lowercase(target@) + md_suffix());
    }
    let lower = chars_of(to_lowercase(target).as_str());
    match lookup_id_exec(ids, lower.as_slice(), Ghost(ds)) {
        Some(i) => Some(i),
        None => {
            let mut with_ext = lower.clone();
            with_ext.push('.');
            with_ext.push('m');
            with_ext.push('d');
            assert(with_ext@ =~= lower@ + md_suffix());
            lookup_id_exec(ids, with_ext.as_slice(), Ghost(ds))
        },
    }
}

/// Link `c'` of document `s'` comes before link `c` of document `s`.
pub open spec fn linked_before(
    ds: Seq<Document>,
    ls: Seq<Seq<(Seq<char>, Seq<char>)>>,
    t: int,
    s: int,
    c: int,
) -> bool {
    exists|s2: int, c2: int| (s2 < s || (s2 == s && c2 < c)) && #[trigger] links_to(ds, ls, t, s2, c2)
}

/// The link graph: which documents have inbound links, whether there are
/// links at all, and the broken links of each document.
struct LinkGraph {
    inbound: Vec<bool>,
    any: bool,
    broken: Vec<Vec<(String, String)>>,
}

fn link_graph(ds: &Vec<&Document>, links: &Vec<Vec<(String, String)>>) -> (g: LinkGraph)
    requires
        links@.len() == ds@.len(),
    ensures
        g.inbound@.len() == ds@.len(),
        forall|t: int| 0 <= t < ds@.len() ==> (#[trigger] g.inbound@[t]) == has_inbound(derefs(ds@), link_views(links@), t),
        g.any == any_links(link_views(links@)),
        g.broken@.len() == ds@.len(),
        forall|s: int|
            0 <= s < ds@.len() ==> pair_views((#[trigger] g.broken@[s])@) == broken_of(derefs(ds@), link_views(links@)[s]),
{
    let ghost dv = derefs(ds@);
    let ghost lv = link_views(links@);
    let ids = doc_ids(ds);
    let mut inbound: Vec<bool> = Vec::new();
    let mut i: usize = 0;
    while i < ds.len()
        invariant
            i <= ds@.len(),
            inbound@.len() == i,
            forall|t: int| 0 <= t < i ==> !(#[trigger] inbound@[t]),
        decreases ds.len() - i,
    {
        inbound.push(false);
        i = i + 1;
    }
    let mut any = false;
    let mut broken: Vec<Vec<(String, String)>> = Vec::new();
    let mut s: usize = 0;
    while s < links.len()
        invariant
            s <= links@.len(),
            links@.len() == ds@.len(),
            dv == derefs(ds@),
            lv == link_views(links@),
            ids_of(ids@, dv),
            inbound@.len() == ds@.len(),
            forall|t: int| 0 <= t < ds@.len() ==> (#[trigger] inbound@[t]) == linked_before(dv, lv, t, s as int, 0),
            any == exists|s2: int| 0 <= s2 < s && (#[trigger] lv[s2]).len() > 0,
            broken@.len() == s,
            forall|s2: int| 0 <= s2 < s ==> pair_views((#[trigger] broken@[s2])@) == broken_of(dv, lv[s2]),
        decreases links.len() - s,
    {
        let caps = &links[s];
        assert(lv[s as int] == pair_views(caps@));
        let mut mine: Vec<(String, String)> = Vec::new();
        let mut c: usize = 0;
        while c < caps.len()
            invariant
                s < links@.len(),
                links@.len() == ds@.len(),
                caps == &links@[s as int],
                c <= caps@.len(),
                dv == derefs(ds@),
                lv == link_views(links@),
                lv[s as int] == pair_views(caps@),
                ids_of(ids@, dv),
                inbound@.len() == ds@.len(),
                forall|t: int| 0 <= t < ds@.len() ==> (#[trigger] inbound@[t]) == linked_before(dv, lv, t, s as int, c as int),
                pair_views(mine@) == broken_of(dv, pair_views(caps@).take(c as int)),
            decreases caps.len() - c,
        {
            let ghost pre = pair_views(caps@).take(c as int);
            let ghost post = pair_views(caps@).take(c + 1);
            assert(post.drop_last() =~= pre);
            let raw = &caps[c].0;
            let inner = &caps[c].1;
            assert(post.last() == (raw@, inner@));
            assert(lv[s as int].len() == caps@.len());
            assert(lv[s as int][c as int] == (raw@, inner@));
            let target = link_target_exec(inner.as_str());
            let ghost before = mine@;
            let ghost old_in = inbound@;
            match resolve_link_exec(&ids, target.as_str(), Ghost(dv)) {
                Some(t) => {
                    if t != s {
                        inbound.set(t, true);
                    }
                    proof {
                        assert(links_to(dv, lv, t as int, s as int, c as int) == (t != s));
                        assert forall|u: int| 0 <= u < ds@.len() implies (#[trigger] inbound@[u]) == linked_before(dv, lv, u, s as int, c + 1) by {
                            if linked_before(dv, lv, u, s as int, c + 1) && !linked_before(dv, lv, u, s as int, c as int) {
                                let (s2, c2) = choose|s2: int, c2: int| (s2 < s || (s2 == s && c2 < c + 1)) && #[trigger] links_to(dv, lv, u, s2, c2);
                                assert(s2 == s && c2 == c);
                            }
                            if u == t as int && t != s {
                                assert(links_to(dv, lv, u, s as int, c as int));
                            }
                            if linked_before(dv, lv, u, s as int, c as int) {
                                let (s2, c2) = choose|s2: int, c2: int| (s2 < s || (s2 == s && c2 < c)) && #[trigger] links_to(dv, lv, u, s2, c2);
                                assert(links_to(dv, lv, u, s2, c2));
                            }
                        }
                    }
                },
                None => {
                    mine.push((target, raw.clone()));
                    proof {
                        assert(pair_views(mine@) =~= pair_views(before).push((link_target(inner@), raw@)));
                        assert forall|u: int| 0 <= u < ds@.len() implies (#[trigger] inbound@[u]) == linked_before(dv, lv, u, s as int, c + 1) by {
                            if linked_before(dv, lv, u, s as int, c + 1) && !linked_before(dv, lv, u, s as int, c as int) {
                                let (s2, c2) = choose|s2: int, c2: int| (s2 < s || (s2 == s && c2 < c + 1)) && #[trigger] links_to(dv, lv, u, s2, c2);
                                assert(s2 == s && c2 == c);
                            }
                            if linked_before(dv, lv, u, s as int, c as int) {
                                let (s2, c2) = choose|s2: int, c2: int| (s2 < s || (s2 == s && c2 < c)) && #[trigger] links_to(dv, lv, u, s2, c2);
                                assert(links_to(dv, lv, u, s2, c2));
                            }
                        }
                    }
                },
            }
            c = c + 1;
        }
        proof {
            assert(pair_views(caps@).take(caps@.len() as int) =~= pair_views(caps@));
            assert forall|u: int| 0 <= u < ds@.len() implies (#[trigger] inbound@[u]) == linked_before(dv, lv, u, s + 1, 0) by {
                if linked_before(dv, lv, u, s + 1, 0) {
                    let (s2, c2) = choose|s2: int, c2: int| (s2 < s + 1 || (s2 == s + 1 && c2 < 0)) && #[trigger] links_to(dv, lv, u, s2, c2);
                    assert(links_to(dv, lv, u, s2, c2));
                    assert(linked_before(dv, lv, u, s as int, caps@.len() as int));
                }
                if linked_before(dv, lv, u, s as int, caps@.len() as int) {
                    let (s2, c2) = choose|s2: int, c2: int| (s2 < s || (s2 == s && c2 < caps@.len())) && #[trigger] links_to(dv, lv, u, s2, c2);
                    assert(links_to(dv, lv, u, s2, c2));
                }
            }
        }
        let ghost old_any = any;
        if caps.len() > 0 {
            any = true;
        }
        proof {
            assert(pair_views(caps@).len() == caps@.len());
            if (exists|s2: int| 0 <= s2 < s + 1 && (#[trigger] lv[s2]).len() > 0) {
                let s2 = choose|s2: int| 0 <= s2 < s + 1 && (#[trigger] lv[s2]).len() > 0;
                if s2 < s {
                    assert(old_any);
                }
            }
            if any && !old_any {
                assert(lv[s as int].len() > 0);
            }
        }
        let ghost bb = broken@;
        broken.push(mine);
        proof {
            assert forall|s2: int| 0 <= s2 < s + 1 implies pair_views((#[trigger] broken@[s2])@) == broken_of(dv, lv[s2]) by {
                if s2 < s {
                    assert(broken@[s2] == bb[s2]);
                }
            }
        }
        s = s + 1;
    }
    proof {
        assert forall|t: int| 0 <= t < ds@.len() implies (#[trigger] inbound@[t]) == has_inbound(dv, lv, t) by {
            if has_inbound(dv, lv, t) {
                let (s2, c2) = choose|s2: int, c2: int| links_to(dv, lv, t, s2, c2);
                assert(links_to(dv, lv, t, s2, c2));
            }
            if linked_before(dv, lv, t, s as int, 0) {
                let (s2, c2) = choose|s2: int, c2: int| (s2 < s || (s2 == s && c2 < 0)) && #[trigger] links_to(dv, lv, t, s2, c2);
                assert(links_to(dv, lv, t, s2, c2));
            }
        }
        if any_links(lv) {
            let s2 = choose|s2: int| 0 <= s2 < lv.len() && (#[trigger] lv[s2]).len() > 0;
            assert(lv[s2].len() > 0);
        }
    }
    LinkGraph { inbound, any, broken }
}

// ---------------------------------------------------------------------------
// The report
// ---------------------------------------------------------------------------

proof fn lemma_broken_of_len(ds: Seq<Document>, caps: Seq<(Seq<char>, Seq<char>)>)
    ensures
        broken_of(ds, caps).len() <= caps.len(),
    decreases caps.len(),
{
    if caps.len() > 0 {
        lemma_broken_of_len(ds, caps.drop_last());
    }
}

fn key_of(k: &str) -> (r: Vec<char>)
    ensures
        r@ == k@,
{
    chars_of(k)
}

/// The last date of a document, when it is before the cutoff day.
fn stale_date_exec(d: &Document, cutoff: i64) -> (r: Option<String>)
    ensures
        match r {
            Some(t) => stale_date(*d, cutoff as int) == Some(t@),
            None => stale_date(*d, cutoff as int) is None,
        },
{
    let uk = key_of("updated");
    let ck = key_of("created");
    proof {
        reveal_strlit("updated");
        reveal_strlit("created");
    }
    assert(uk@ =~= updated_key());
    assert(ck@ =~= created_key());
    let v = match fm_get(&d.frontmatter, uk.as_slice()) {
        Some(v) => Some(v),
        None => fm_get(&d.frontmatter, ck.as_slice()),
    };
    match v {
        Some(v) => {
            let text = yaml_value_to_string(v);
            match parse_ymd(text.as_str()) {
                Some(day) => {
                    if (day as i64) < cutoff {
                        Some(text)
                    } else {
                        None
                    }
                },
                None => None,
            }
        },
        None => None,
    }
}

fn doc_ref_exec(d: &Document) -> (r: HealthDocRef)
    ensures
        r.path@ == d.path@,
        r.title@ == d.title@,
{
    HealthDocRef { path: d.path.clone(), title: d.title.clone() }
}

fn collection_health_exec(
    dsr: &Vec<&Document>,
    links: &Vec<Vec<(String, String)>>,
    g: &LinkGraph,
    name: &Vec<char>,
    cutoff: i64,
    min_words: u32,
) -> (r: HealthCollectionOutput)
    requires
        links@.len() == dsr@.len(),
        g.inbound@.len() == dsr@.len(),
        forall|t: int| 0 <= t < dsr@.len() ==> (#[trigger] g.inbound@[t]) == has_inbound(derefs(dsr@), link_views(links@), t),
        g.any == any_links(link_views(links@)),
        g.broken@.len() == dsr@.len(),
        forall|s: int|
            0 <= s < dsr@.len() ==> pair_views((#[trigger] g.broken@[s])@) == broken_of(derefs(dsr@), link_views(links@)[s]),
        7 * weight_of(link_views(links@), idx_in(derefs(dsr@), name@)) <= usize::MAX,
    ensures
        collection_health(r, derefs(dsr@), link_views(links@), name@, cutoff as int, min_words as int),
        r.issues <= 7 * weight_of(link_views(links@), idx_in(derefs(dsr@), name@)),
{
    let ghost dv = derefs(dsr@);
    let ghost lv = link_views(links@);
    let ghost ix = idx_in(dv, name@);
    proof {
        lemma_idx_in(dv, name@);
    }
    let ixv = indices_in(dsr, name.as_slice());
    let ck = key_of("created");
    let uk = key_of("updated");
    proof {
        reveal_strlit("updated");
        reveal_strlit("created");
    }
    assert(uk@ =~= updated_key());
    assert(ck@ =~= created_key());
    let mut missing_created: Vec<HealthDocRef> = Vec::new();
    let mut missing_updated: Vec<HealthDocRef> = Vec::new();
    let mut no_tags: Vec<HealthDocRef> = Vec::new();
    let mut stale: Vec<HealthStaleRef> = Vec::new();
    let mut stubs: Vec<HealthStubRef> = Vec::new();
    let mut orphans: Vec<HealthDocRef> = Vec::new();
    let mut broken_links: Vec<HealthBrokenLinkRef> = Vec::new();
    let mut t: usize = 0;
    while t < ixv.len()
        invariant
            t <= ixv@.len(),
            dv == derefs(dsr@),
            lv == link_views(links@),
            ix == idx_in(dv, name@),
            ixv@.len() == ix.len(),
            forall|k: int| 0 <= k < ixv@.len() ==> (#[trigger] ixv@[k]) as int == ix[k],
            forall|k: int| 0 <= k < ix.len() ==> 0 <= #[trigger] ix[k] < dv.len(),
            links@.len() == dsr@.len(),
            g.inbound@.len() == dsr@.len(),
            forall|u: int| 0 <= u < dsr@.len() ==> (#[trigger] g.inbound@[u]) == has_inbound(dv, lv, u),
            g.any == any_links(lv),
            g.broken@.len() == dsr@.len(),
            forall|u: int| 0 <= u < dsr@.len() ==> pair_views((#[trigger] g.broken@[u])@) == broken_of(dv, lv[u]),
            ck@ == created_key(),
            uk@ == updated_key(),
            ref_views(missing_created@) == missing_field(dv, ix.take(t as int), created_key()),
            ref_views(missing_updated@) == missing_field(dv, ix.take(t as int), updated_key()),
            ref_views(no_tags@) == untagged(dv, ix.take(t as int)),
            stale_views(stale@) == stale_of(dv, ix.take(t as int), cutoff as int),
            stub_views(stubs@) == stubs_of(dv, ix.take(t as int), min_words as int),
            ref_views(orphans@) == orphans_of(dv, lv, ix.take(t as int)),
            broken_views(broken_links@) == broken_in(dv, lv, ix.take(t as int)),
            missing_created@.len() <= t,
            missing_updated@.len() <= t,
            no_tags@.len() <= t,
            stale@.len() <= t,
            stubs@.len() <= t,
            orphans@.len() <= t,
            broken_links@.len() + t <= weight_of(lv, ix.take(t as int)),
        decreases ixv.len() - t,
    {
        let s = ixv[t];
        let ghost pre = ix.take(t as int);
        let ghost post = ix.take(t + 1);
        assert(post.drop_last() =~= pre);
        assert(post.last() == s as int);
        let d = dsr[s];
        assert(dv[s as int] == *d);
        // missing created / updated
        let ghost b1 = missing_created@;
        if fm_get(&d.frontmatter, ck.as_slice()).is_none() {
            missing_created.push(doc_ref_exec(d));
            assert(ref_views(missing_created@) =~= ref_views(b1).push(doc_ref(*d)));
        }
        let ghost b2 = missing_updated@;
        if fm_get(&d.frontmatter, uk.as_slice()).is_none() {
            missing_updated.push(doc_ref_exec(d));
            assert(ref_views(missing_updated@) =~= ref_views(b2).push(doc_ref(*d)));
        }
        let ghost b3 = no_tags@;
        if d.tags.len() == 0 {
            no_tags.push(doc_ref_exec(d));
            assert(ref_views(no_tags@) =~= ref_views(b3).push(doc_ref(*d)));
        }
        let ghost b4 = stale@;
        match stale_date_exec(d, cutoff) {
            Some(last) => {
                let e = HealthStaleRef { path: d.path.clone(), title: d.title.clone(), last_date: last };
                stale.push(e);
                assert(stale_views(stale@) =~= stale_views(b4).push((d.path@, d.title@, e.last_date@)));
            },
            None => {},
        }
        let body = chars_of(d.body.as_str());
        let wc = word_count_exec(body.as_slice());
        let ghost b5 = stubs@;
        if wc < min_words as usize {
            let e = HealthStubRef { path: d.path.clone(), title: d.title.clone(), word_count: wc };
            stubs.push(e);
            assert(stub_views(stubs@) =~= stub_views(b5).push((d.path@, d.title@, wc as nat)));
        }
        let ghost b6 = orphans@;
        if g.any && !g.inbound[s] {
            orphans.push(doc_ref_exec(d));
            assert(ref_views(orphans@) =~= ref_views(b6).push(doc_ref(*d)));
        }
        // broken links of this document
        let mine = &g.broken[s];
        let ghost bs = broken_of(dv, lv[s as int]);
        let ghost mapped = bs.map_values(|b: (Seq<char>, Seq<char>)| (dv[s as int].path@, b.0, b.1));
        assert(pair_views(mine@) == bs);
        proof {
            lemma_broken_of_len(dv, lv[s as int]);
            assert(lv[s as int] == pair_views(links@[s as int]@));
        }
        let ghost b7 = broken_links@;
        let mut j: usize = 0;
        while j < mine.len()
            invariant
                j <= mine@.len(),
                pair_views(mine@) == bs,
                mapped == bs.map_values(|b: (Seq<char>, Seq<char>)| (dv[s as int].path@, b.0, b.1)),
                dv[s as int] == *d,
                broken_views(broken_links@) == broken_views(b7) + mapped.take(j as int),
                broken_links@.len() == b7.len() + j,
            decreases mine.len() - j,
        {
            let e = HealthBrokenLinkRef { source: d.path.clone(), target: mine[j].0.clone(), raw: mine[j].1.clone() };
            let ghost bb = broken_links@;
            broken_links.push(e);
            assert(mapped[j as int] == (d.path@, mine@[j as int].0@, mine@[j as int].1@));
            assert(broken_views(broken_links@) =~= broken_views(bb).push((e.source@, e.target@, e.raw@)));
            assert(mapped.take(j + 1) =~= mapped.take(j as int).push(mapped[j as int]));
            j = j + 1;
        }
        assert(mapped.take(mine@.len() as int) =~= mapped);
        assert(pair_views(mine@).len() == mine@.len());
        assert(pair_views(links@[s as int]@).len() == links@[s as int]@.len());
        t = t + 1;
    }
    assert(ix.take(ix.len() as int) =~= ix);
    let issues = missing_created.len() + missing_updated.len() + no_tags.len() + stale.len() + stubs.len()
        + orphans.len() + broken_links.len();
    HealthCollectionOutput {
        name: name_string(name),
        doc_count: ixv.len(),
        issues,
        missing_created,
        missing_updated,
        no_tags,
        stale,
        stubs,
        orphans,
        broken_links,
    }
}

/// Builds the health report of the documents that pass the collection
/// filter, given the wiki-links of each of them (in order): per collection
/// (in name order) the findings of each check, and the counts of documents
/// and findings. Dates before `today - stale_days` (day numbers) are stale;
/// bodies with fewer than `min_words` words are stubs.
pub fn health_report(
    documents: &Vec<Document>,
    collection_filter: Option<&str>,
    stale_days: u32,
    min_words: u32,
    today: i32,
    links: &Vec<Vec<(String, String)>>,
) -> (r: HealthOutput)
    requires
        links@.len() == filtered(documents@, opt_view(collection_filter)).len(),
        7 * total_weight(link_views(links@), links@.len() as int) <= usize::MAX,
    ensures
        health_of(
            r,
            documents@,
            opt_view(collection_filter),
            link_views(links@),
            today - stale_days,
            min_words as int,
        ),
{
    let ghost f = opt_view(collection_filter);
    let ghost lv = link_views(links@);
    let dsr = filter_docs(documents, collection_filter);
    let ghost dv = derefs(dsr@);
    assert(dv.len() == dsr@.len());
    let g = link_graph(&dsr, links);
    let cutoff: i64 = (today as i64) - (stale_days as i64);
    let names = collection_names(documents, collection_filter);
    let ghost ns = views(names@);
    proof {
        lemma_weight_named_empty(dv, lv, ns.take(0));
        lemma_filtered(documents@, f);
    }
    let mut collections: Vec<HealthCollectionOutput> = Vec::new();
    let mut total_checked: usize = 0;
    let mut total_issues: usize = 0;
    let mut k: usize = 0;
    while k < names.len()
        invariant
            k <= names@.len(),
            ns == views(names@),
            f == opt_view(collection_filter),
            lv == link_views(links@),
            dv == derefs(dsr@),
            dv == filtered(documents@, f),
            dv.len() == dsr@.len(),
            links@.len() == dsr@.len(),
            names_of(ns, documents@, f),
            7 * total_weight(lv, dv.len() as int) <= usize::MAX,
            g.inbound@.len() == dsr@.len(),
            forall|t: int| 0 <= t < dsr@.len() ==> (#[trigger] g.inbound@[t]) == has_inbound(dv, lv, t),
            g.any == any_links(lv),
            g.broken@.len() == dsr@.len(),
            forall|u: int| 0 <= u < dsr@.len() ==> pair_views((#[trigger] g.broken@[u])@) == broken_of(dv, lv[u]),
            collections@.len() == k,
            forall|q: int| 0 <= q < k ==> (#[trigger] collections@[q]).name@ == ns[q],
            forall|q: int|
                0 <= q < k ==> collection_health(
                    #[trigger] collections@[q],
                    dv,
                    lv,
                    collections@[q].name@,
                    cutoff as int,
                    min_words as int,
                ),
            cutoff == today - stale_days,
            total_checked == sum_checked(collections@),
            total_checked == count_named(dv, ns.take(k as int)),
            total_issues == sum_issues(collections@),
            total_issues <= 7 * weight_named(dv, lv, ns.take(k as int)),
        decreases names.len() - k,
    {
        let ghost pre = ns.take(k as int);
        let ghost x = ns[k as int];
        proof {
            assert(ns.take(k + 1) =~= pre.push(x));
            assert(x == names@[k as int]@);
            if pre.contains(x) {
                let q = choose|q: int| 0 <= q < pre.len() && pre[q] == x;
                assert(lex_lt(ns[q], x));
                lemma_lex_irreflexive(x);
            }
            lemma_weight_named_push(dv, lv, pre, x);
            lemma_count_named_push(dv, pre, x);
            lemma_weight_named_bound(dv, lv, pre.push(x));
            lemma_count_named_bound(dv, pre.push(x));
            lemma_idx_in(dv, x);
        }
        let c = collection_health_exec(&dsr, links, &g, &names[k], cutoff, min_words);
        proof {
            assert(c.doc_count == crate::group::docs_in(dv, x).len());
            assert(dsr@.len() == dsr.len());
        }
        let ghost before = collections@;
        total_checked = total_checked + c.doc_count;
        total_issues = total_issues + c.issues;
        collections.push(c);
        proof {
            assert(collections@.drop_last() =~= before);
        }
        k = k + 1;
    }
    proof {
        assert(ns.take(ns.len() as int) =~= ns);
        assert(health_names(collections@) =~= ns);
        assert forall|u: int| 0 <= u < dv.len() implies ns.contains((#[trigger] dv[u]).collection@) by {
            let v = choose|v: int| 0 <= v < documents@.len() && documents@[v] == dv[u];
            assert(present(documents@, f, dv[u].collection@));
        }
        lemma_count_named_all(dv, ns);
    }
    HealthOutput { total_documents_checked: total_checked, total_issues, collections }
}

/// The wiki-links of each document.
pub open spec fn doc_links(ds: Seq<Document>) -> Seq<Seq<(Seq<char>, Seq<char>)>> {
    ds.map_values(|d: Document| links_of(d.body@))
}

/// Builds the health report of the documents that pass the collection
/// filter (see `health_report`), finding the wiki-links of each body with
/// the wiki-link pattern. Gives `None` only when the documents and their
/// links together are too many to count in a `usize`.
pub fn format_health(
    documents: &Vec<Document>,
    collection_filter: Option<&str>,
    stale_days: u32,
    min_words: u32,
    today: i32,
) -> (r: Option<HealthOutput>)
    ensures
        match r {
            Some(h) => health_of(
                h,
                documents@,
                opt_view(collection_filter),
                doc_links(filtered(documents@, opt_view(collection_filter))),
                today - stale_days,
                min_words as int,
            ),
            None => 7 * total_weight(
                doc_links(filtered(documents@, opt_view(collection_filter))),
                filtered(documents@, opt_view(collection_filter)).len() as int,
            ) > usize::MAX,
        },
{
    let ghost f = opt_view(collection_filter);
    let dsr = filter_docs(documents, collection_filter);
    let ghost dv = derefs(dsr@);
    let ghost dl = doc_links(dv);
    let limit: usize = usize::MAX / 7;
    let mut links: Vec<Vec<(String, String)>> = Vec::new();
    let mut weight: usize = 0;
    let mut i: usize = 0;
    while i < dsr.len()
        invariant
            i <= dsr@.len(),
            dv == derefs(dsr@),
            dv == filtered(documents@, opt_view(collection_filter)),
            dl == doc_links(dv),
            limit == usize::MAX / 7,
            links@.len() == i,
            forall|k: int| 0 <= k < i ==> (#[trigger] link_views(links@)[k]) == dl[k],
            weight == total_weight(dl, i as int),
            weight <= limit,
        decreases dsr.len() - i,
    {
        let d = dsr[i];
        assert(dv[i as int] == *d);
        let caps = match captures_of("\\[\\[([^\\]]+)\\]\\]", d.body.as_str()) {
            Some(v) => v,
            None => Vec::new(),
        };
        assert(pair_views(caps@) == links_of(d.body@));
        if caps.len() > limit - weight || limit - weight - caps.len() < 1 {
            proof {
                assert(dl[i as int] == links_of(d.body@));
                assert(pair_views(caps@).len() == caps@.len());
                let tw = total_weight(dl, i + 1);
                assert(tw == weight + 1 + caps@.len());
                assert(tw > limit);
                assert(7 * tw > usize::MAX) by (nonlinear_arith)
                    requires
                        tw > limit,
                        limit == usize::MAX / 7,
                ;
                assert(dv.len() == dsr@.len());
                lemma_total_weight_mono(dl, i + 1, dv.len() as int);
            }
            return None;
        }
        weight = weight + 1 + caps.len();
        assert(dl[i as int] == links_of(d.body@));
        assert(pair_views(caps@).len() == caps@.len());
        let ghost before = links@;
        links.push(caps);
        proof {
            assert forall|k: int| 0 <= k < i + 1 implies (#[trigger] link_views(links@)[k]) == dl[k] by {
                if k < i {
                    assert(links@[k] == before[k]);
                    assert(link_views(before)[k] == dl[k]);
                }
            }
        }
        i = i + 1;
    }
    proof {
        assert(link_views(links@) =~= dl);
        assert(dv.len() == dsr@.len());
    }
    Some(health_report(documents, collection_filter, stale_days, min_words, today, &links))
}

proof fn lemma_total_weight_mono(ls: Seq<Seq<(Seq<char>, Seq<char>)>>, m: int, n: int)
    requires
        0 <= m <= n,
    ensures
        total_weight(ls, m) <= total_weight(ls, n),
    decreases n - m,
{
    if m < n {
        lemma_total_weight_mono(ls, m, n - 1);
    }
}

// ---------------------------------------------------------------------------
// Sizes
// ---------------------------------------------------------------------------

/// The views of link lists.
pub open spec fn link_views(links: Seq<Vec<(String, String)>>) -> Seq<Seq<(Seq<char>, Seq<char>)>> {
    links.map_values(|v: Vec<(String, String)>| pair_views(v@))
}

/// One per document plus one per link, over the first `n` documents.
pub open spec fn total_weight(ls: Seq<Seq<(Seq<char>, Seq<char>)>>, n: int) -> nat
    decreases n,
{
    if n <= 0 {
        0
    } else {
        total_weight(ls, n - 1) + 1 + ls[n - 1].len()
    }
}

/// One per document plus one per link, over the documents at positions `ix`.
pub open spec fn weight_of(ls: Seq<Seq<(Seq<char>, Seq<char>)>>, ix: Seq<int>) -> nat
    decreases ix.len(),
{
    if ix.len() == 0 {
        0
    } else {
        weight_of(ls, ix.drop_last()) + 1 + ls[ix.last()].len()
    }
}

/// One per document plus one per link, over the documents of the named
/// collections.
pub open spec fn weight_named(ds: Seq<Document>, ls: Seq<Seq<(Seq<char>, Seq<char>)>>, ns: Seq<Seq<char>>) -> nat
    decreases ds.len(),
{
    if ds.len() == 0 {
        0
    } else {
        weight_named(ds.drop_last(), ls, ns) + if ns.contains(ds.last().collection@) {
            1 + ls[ds.len() - 1].len()
        } else {
            0nat
        }
    }
}

proof fn lemma_weight_named_push(
    ds: Seq<Document>,
    ls: Seq<Seq<(Seq<char>, Seq<char>)>>,
    ns: Seq<Seq<char>>,
    x: Seq<char>,
)
    requires
        !ns.contains(x),
    ensures
        weight_named(ds, ls, ns.push(x)) == weight_named(ds, ls, ns) + weight_of(ls, idx_in(ds, x)),
    decreases ds.len(),
{
    if ds.len() > 0 {
        lemma_weight_named_push(ds.drop_last(), ls, ns, x);
        let c = ds.last().collection@;
        if ns.push(x).contains(c) && c != x {
            let k = choose|k: int| 0 <= k < ns.push(x).len() && ns.push(x)[k] == c;
            assert(ns[k] == c);
        }
        if ns.contains(c) {
            let k = choose|k: int| 0 <= k < ns.len() && ns[k] == c;
            assert(ns.push(x)[k] == c);
        }
        if c == x {
            assert(ns.push(x)[ns.len() as int] == c);
            let ix = idx_in(ds, x);
            assert(ix.drop_last() =~= idx_in(ds.drop_last(), x));
        }
    }
}

proof fn lemma_weight_named_bound(ds: Seq<Document>, ls: Seq<Seq<(Seq<char>, Seq<char>)>>, ns: Seq<Seq<char>>)
    ensures
        weight_named(ds, ls, ns) <= total_weight(ls, ds.len() as int),
    decreases ds.len(),
{
    if ds.len() > 0 {
        lemma_weight_named_bound(ds.drop_last(), ls, ns);
    }
}

proof fn lemma_weight_named_empty(ds: Seq<Document>, ls: Seq<Seq<(Seq<char>, Seq<char>)>>, ns: Seq<Seq<char>>)
    requires
        ns.len() == 0,
    ensures
        weight_named(ds, ls, ns) == 0,
        count_named(ds, ns) == 0,
    decreases ds.len(),
{
    if ds.len() > 0 {
        lemma_weight_named_empty(ds.drop_last(), ls, ns);
    }
}

proof fn lemma_count_named_all(ds: Seq<Document>, ns: Seq<Seq<char>>)
    requires
        forall|u: int| 0 <= u < ds.len() ==> ns.contains((#[trigger] ds[u]).collection@),
    ensures
        count_named(ds, ns) == ds.len(),
    decreases ds.len(),
{
    if ds.len() > 0 {
        let init = ds.drop_last();
        assert forall|u: int| 0 <= u < init.len() implies ns.contains((#[trigger] init[u]).collection@) by {
            assert(init[u] == ds[u]);
        }
        lemma_count_named_all(init, ns);
        assert(ds[ds.len() - 1] == ds.last());
    }
}

} // verus!
