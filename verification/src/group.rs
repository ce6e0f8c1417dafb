//! Grouping documents and sections by collection.
//!
//! Digests and health reports list collections by name, in order, each once;
//! within a collection, documents and sections keep the order they were given in.

use vstd::prelude::*;
use crate::order::{lemma_lex_irreflexive, lemma_lex_total, lemma_lex_transitive, lex_less, lex_lt};
use crate::query::opt_view;
use crate::text::{chars_eq, chars_of, slice_chars, string_of, views};
use crate::types::{Document, Section};

verus! {

/// A collection name passes an optional collection filter.
pub open spec fn passes(c: Seq<char>, filter: Option<Seq<char>>) -> bool {
    filter matches Some(f) ==> c == f
}

/// Each name comes before the next.
pub open spec fn strictly_sorted(ns: Seq<Seq<char>>) -> bool {
    forall|i: int, j: int| 0 <= i < j < ns.len() ==> lex_lt(ns[i], ns[j])
}

/// Some document of `docs` belongs to collection `c`, and `c` passes the filter.
pub open spec fn present(docs: Seq<Document>, filter: Option<Seq<char>>, c: Seq<char>) -> bool {
    passes(c, filter) && exists|u: int| 0 <= u < docs.len() && (#[trigger] docs[u]).collection@ == c
}

/// `ns` lists, in order and each once, the collections of the documents that
/// pass the filter.
pub open spec fn names_of(ns: Seq<Seq<char>>, docs: Seq<Document>, filter: Option<Seq<char>>) -> bool {
    &&& strictly_sorted(ns)
    &&& forall|c: Seq<char>| #[trigger] ns.contains(c) <==> present(docs, filter, c)
}

/// The documents of collection `c`, in order.
pub open spec fn docs_in(docs: Seq<Document>, c: Seq<char>) -> Seq<Document>
    decreases docs.len(),
{
    if docs.len() == 0 {
        Seq::empty()
    } else if docs.last().collection@ == c {
        docs_in(docs.drop_last(), c).push(docs.last())
    } else {
        docs_in(docs.drop_last(), c)
    }
}

/// The sections of collection `c`, in order.
pub open spec fn secs_in(secs: Seq<Section>, c: Seq<char>) -> Seq<Section>
    decreases secs.len(),
{
    if secs.len() == 0 {
        Seq::empty()
    } else if secs.last().collection@ == c {
        secs_in(secs.drop_last(), c).push(secs.last())
    } else {
        secs_in(secs.drop_last(), c)
    }
}

/// The documents that pass the filter, in order.
pub open spec fn filtered(docs: Seq<Document>, filter: Option<Seq<char>>) -> Seq<Document>
    decreases docs.len(),
{
    if docs.len() == 0 {
        Seq::empty()
    } else if passes(docs.last().collection@, filter) {
        filtered(docs.drop_last(), filter).push(docs.last())
    } else {
        filtered(docs.drop_last(), filter)
    }
}

/// The number of documents whose collection is one of `ns`.
pub open spec fn count_named(docs: Seq<Document>, ns: Seq<Seq<char>>) -> nat
    decreases docs.len(),
{
    if docs.len() == 0 {
        0
    } else {
        count_named(docs.drop_last(), ns) + if ns.contains(docs.last().collection@) {
            1nat
        } else {
            0nat
        }
    }
}

/// The number of sections whose collection is one of `ns`.
pub open spec fn count_named_secs(secs: Seq<Section>, ns: Seq<Seq<char>>) -> nat
    decreases secs.len(),
{
    if secs.len() == 0 {
        0
    } else {
        count_named_secs(secs.drop_last(), ns) + if ns.contains(secs.last().collection@) {
            1nat
        } else {
            0nat
        }
    }
}

/// Adding a new name adds the documents of that collection.
pub proof fn lemma_count_named_push(docs: Seq<Document>, ns: Seq<Seq<char>>, x: Seq<char>)
    requires
        !ns.contains(x),
    ensures
        count_named(docs, ns.push(x)) == count_named(docs, ns) + docs_in(docs, x).len(),
    decreases docs.len(),
{
    if docs.len() > 0 {
        lemma_count_named_push(docs.drop_last(), ns, x);
        let c = docs.last().collection@;
        if ns.push(x).contains(c) && c != x {
            let k = choose|k: int| 0 <= k < ns.push(x).len() && ns.push(x)[k] == c;
            assert(ns[k] == c);
        }
        if ns.contains(c) {
            let k = choose|k: int| 0 <= k < ns.len() && ns[k] == c;
            assert(ns.push(x)[k] == c);
        }
        if c == x {
            assert(ns.push(x)[ns.len() as int] == c);
        }
    }
}

/// Adding a new name adds the sections of that collection.
pub proof fn lemma_count_named_secs_push(secs: Seq<Section>, ns: Seq<Seq<char>>, x: Seq<char>)
    requires
        !ns.contains(x),
    ensures
        count_named_secs(secs, ns.push(x)) == count_named_secs(secs, ns) + secs_in(secs, x).len(),
    decreases secs.len(),
{
    if secs.len() > 0 {
        lemma_count_named_secs_push(secs.drop_last(), ns, x);
        let c = secs.last().collection@;
        if ns.push(x).contains(c) && c != x {
            let k = choose|k: int| 0 <= k < ns.push(x).len() && ns.push(x)[k] == c;
            assert(ns[k] == c);
        }
        if ns.contains(c) {
            let k = choose|k: int| 0 <= k < ns.len() && ns[k] == c;
            assert(ns.push(x)[k] == c);
        }
        if c == x {
            assert(ns.push(x)[ns.len() as int] == c);
        }
    }
}

pub proof fn lemma_count_named_bound(docs: Seq<Document>, ns: Seq<Seq<char>>)
    ensures
        count_named(docs, ns) <= docs.len(),
    decreases docs.len(),
{
    if docs.len() > 0 {
        lemma_count_named_bound(docs.drop_last(), ns);
    }
}

pub proof fn lemma_count_named_secs_bound(secs: Seq<Section>, ns: Seq<Seq<char>>)
    ensures
        count_named_secs(secs, ns) <= secs.len(),
    decreases secs.len(),
{
    if secs.len() > 0 {
        lemma_count_named_secs_bound(secs.drop_last(), ns);
    }
}

/// When the names are exactly the collections that pass the filter, they
/// count the documents that pass it.
pub proof fn lemma_count_named_filtered(docs: Seq<Document>, ns: Seq<Seq<char>>, filter: Option<Seq<char>>)
    requires
        forall|u: int|
            0 <= u < docs.len() ==> (ns.contains((#[trigger] docs[u]).collection@) <==> passes(
                docs[u].collection@,
                filter,
            )),
    ensures
        count_named(docs, ns) == filtered(docs, filter).len(),
    decreases docs.len(),
{
    if docs.len() > 0 {
        let init = docs.drop_last();
        assert forall|u: int| 0 <= u < init.len() implies (ns.contains((#[trigger] init[u]).collection@)
            <==> passes(init[u].collection@, filter)) by {
            assert(init[u] == docs[u]);
        }
        lemma_count_named_filtered(init, ns, filter);
        assert(docs[docs.len() - 1] == docs.last());
    }
}

/// Inserts `x` into a strictly sorted list of names, unless it is there.
pub fn insert_name(names: &mut Vec<Vec<char>>, x: &[char])
    requires
        strictly_sorted(views(old(names)@)),
    ensures
        strictly_sorted(views(final(names)@)),
        forall|y: Seq<char>| #[trigger] views(final(names)@).contains(y) <==> (views(old(names)@).contains(y) || y == x@),
{
    let ghost ns = views(names@);
    let mut p: usize = 0;
    while p < names.len() && lex_less(names[p].as_slice(), x)
        invariant
            p <= names@.len(),
            ns == views(names@),
            forall|i: int| 0 <= i < p ==> lex_lt(#[trigger] ns[i], x@),
        decreases names@.len() - p,
    {
        p = p + 1;
    }
    if p < names.len() && chars_eq(names[p].as_slice(), x) {
        assert(ns[p as int] == x@);
        assert forall|y: Seq<char>| #[trigger] ns.contains(y) <==> (ns.contains(y) || y == x@) by {
            if y == x@ {
                assert(ns[p as int] == y);
            }
        }
        return;
    }
    proof {
        if p < ns.len() {
            assert(!lex_lt(ns[p as int], x@));
            lemma_lex_total(ns[p as int], x@);
            assert(lex_lt(x@, ns[p as int]));
        }
    }
    let xv = slice_chars(x, 0, x.len());
    assert(xv@ =~= x@);
    let ghost before = names@;
    names.insert(p, xv);
    proof {
        let post = views(names@);
        assert(names@ == before.insert(p as int, xv));
        assert forall|i: int| 0 <= i < post.len() implies #[trigger] post[i] == ns.insert(p as int, x@)[i] by {
            if i < p {
                assert(names@[i] == before[i]);
            } else if i > p {
                assert(names@[i] == before[i - 1]);
            }
        }
        assert(post =~= ns.insert(p as int, x@));
        assert forall|i: int, j: int| 0 <= i < j < post.len() implies lex_lt(post[i], post[j]) by {
            if j < p {
            } else if i < p && j == p {
            } else if i < p {
                assert(post[j] == ns[j - 1]);
                if j - 1 > p {
                    lemma_lex_transitive(x@, ns[p as int], ns[j - 1]);
                }
                lemma_lex_transitive(ns[i], x@, ns[j - 1]);
            } else if i == p {
                assert(post[j] == ns[j - 1]);
                if j - 1 > p {
                    lemma_lex_transitive(x@, ns[p as int], ns[j - 1]);
                }
            } else {
                assert(post[i] == ns[i - 1]);
                assert(post[j] == ns[j - 1]);
            }
        }
        assert forall|y: Seq<char>| #[trigger] post.contains(y) <==> (ns.contains(y) || y == x@) by {
            if post.contains(y) {
                let c = choose|c: int| 0 <= c < post.len() && post[c] == y;
                if c < p {
                    assert(ns[c] == y);
                } else if c > p {
                    assert(ns[c - 1] == y);
                }
            }
            if ns.contains(y) {
                let c = choose|c: int| 0 <= c < ns.len() && ns[c] == y;
                if c < p {
                    assert(post[c] == y);
                } else {
                    assert(post[c + 1] == y);
                }
            }
            if y == x@ {
                assert(post[p as int] == y);
            }
        }
    }
}

/// Whether a collection name passes an optional filter.
pub fn passes_exec(c: &str, filter: Option<&str>) -> (r: bool)
    ensures
        r == passes(c@, opt_view(filter)),
{
    match filter {
        Some(f) => {
            let cc = chars_of(c);
            let fc = chars_of(f);
            chars_eq(cc.as_slice(), fc.as_slice())
        },
        None => true,
    }
}

/// The collections of the documents that pass the filter, in order, each once.
pub fn collection_names(documents: &Vec<Document>, filter: Option<&str>) -> (r: Vec<Vec<char>>)
    ensures
        names_of(views(r@), documents@, opt_view(filter)),
{
    let ghost f = opt_view(filter);
    let mut names: Vec<Vec<char>> = Vec::new();
    let mut t: usize = 0;
    assert(views(names@) =~= Seq::<Seq<char>>::empty());
    while t < documents.len()
        invariant
            t <= documents@.len(),
            f == opt_view(filter),
            strictly_sorted(views(names@)),
            forall|c: Seq<char>| #[trigger] views(names@).contains(c) <==> present(documents@.take(t as int), f, c),
        decreases documents.len() - t,
    {
        let ghost pre = documents@.take(t as int);
        let ghost post = documents@.take(t + 1);
        let ghost before = views(names@);
        let d = &documents[t];
        assert(post[t as int] == *d);
        if passes_exec(d.collection.as_str(), filter) {
            let c = chars_of(d.collection.as_str());
            insert_name(&mut names, c.as_slice());
        }
        proof {
            assert forall|c: Seq<char>| #[trigger] views(names@).contains(c) <==> present(post, f, c) by {
                if present(pre, f, c) {
                    let u = choose|u: int| 0 <= u < pre.len() && (#[trigger] pre[u]).collection@ == c;
                    assert(post[u] == pre[u]);
                }
                if present(post, f, c) {
                    let u = choose|u: int| 0 <= u < post.len() && (#[trigger] post[u]).collection@ == c;
                    if u < t {
                        assert(pre[u] == post[u]);
                    }
                }
            }
        }
        t = t + 1;
    }
    assert(documents@.take(documents@.len() as int) =~= documents@);
    names
}

/// The documents behind a list of references.
pub open spec fn derefs(v: Seq<&Document>) -> Seq<Document> {
    v.map_values(|d: &Document| *d)
}

/// The sections behind a list of references.
pub open spec fn sec_derefs(v: Seq<&Section>) -> Seq<Section> {
    v.map_values(|s: &Section| *s)
}

/// The documents of collection `c`, in order.
pub fn docs_of<'a>(documents: &'a Vec<Document>, c: &[char]) -> (r: Vec<&'a Document>)
    ensures
        derefs(r@) == docs_in(documents@, c@),
{
    let mut r: Vec<&Document> = Vec::new();
    let mut t: usize = 0;
    while t < documents.len()
        invariant
            t <= documents@.len(),
            derefs(r@) == docs_in(documents@.take(t as int), c@),
        decreases documents.len() - t,
    {
        let ghost pre = documents@.take(t as int);
        let ghost post = documents@.take(t + 1);
        assert(post.drop_last() =~= pre);
        let d = &documents[t];
        assert(post.last() == *d);
        let dc = chars_of(d.collection.as_str());
        let ghost before = r@;
        if chars_eq(dc.as_slice(), c) {
            r.push(d);
            assert(derefs(r@) =~= derefs(before).push(*d));
        }
        t = t + 1;
    }
    assert(documents@.take(documents@.len() as int) =~= documents@);
    r
}

/// The sections of collection `c`, in order.
pub fn secs_of<'a>(sections: &'a Vec<Section>, c: &[char]) -> (r: Vec<&'a Section>)
    ensures
        sec_derefs(r@) == secs_in(sections@, c@),
{
    let mut r: Vec<&Section> = Vec::new();
    let mut t: usize = 0;
    while t < sections.len()
        invariant
            t <= sections@.len(),
            sec_derefs(r@) == secs_in(sections@.take(t as int), c@),
        decreases sections.len() - t,
    {
        let ghost pre = sections@.take(t as int);
        let ghost post = sections@.take(t + 1);
        assert(post.drop_last() =~= pre);
        let s = &sections[t];
        assert(post.last() == *s);
        let sc = chars_of(s.collection.as_str());
        let ghost before = r@;
        if chars_eq(sc.as_slice(), c) {
            r.push(s);
            assert(sec_derefs(r@) =~= sec_derefs(before).push(*s));
        }
        t = t + 1;
    }
    assert(sections@.take(sections@.len() as int) =~= sections@);
    r
}

/// The positions of the documents of collection `c` in `docs`, in order.
pub open spec fn idx_in(docs: Seq<Document>, c: Seq<char>) -> Seq<int>
    decreases docs.len(),
{
    if docs.len() == 0 {
        Seq::empty()
    } else if docs.last().collection@ == c {
        idx_in(docs.drop_last(), c).push(docs.len() - 1)
    } else {
        idx_in(docs.drop_last(), c)
    }
}

/// The positions are in range, increasing, and pick the documents of `c`.
pub proof fn lemma_idx_in(docs: Seq<Document>, c: Seq<char>)
    ensures
        idx_in(docs, c).len() == docs_in(docs, c).len(),
        forall|k: int|
            0 <= k < idx_in(docs, c).len() ==> 0 <= #[trigger] idx_in(docs, c)[k] < docs.len()
                && docs[idx_in(docs, c)[k]] == docs_in(docs, c)[k],
        forall|k: int, m: int| 0 <= k < m < idx_in(docs, c).len() ==> idx_in(docs, c)[k] < idx_in(docs, c)[m],
    decreases docs.len(),
{
    if docs.len() > 0 {
        let init = docs.drop_last();
        lemma_idx_in(init, c);
        assert forall|k: int| 0 <= k < idx_in(init, c).len() implies docs[idx_in(init, c)[k]] == init[idx_in(init, c)[k]] by {}
    }
}

/// Every document that passes the filter is one of `docs`, and passes it.
pub proof fn lemma_filtered(docs: Seq<Document>, filter: Option<Seq<char>>)
    ensures
        filtered(docs, filter).len() <= docs.len(),
        forall|k: int|
            0 <= k < filtered(docs, filter).len() ==> passes((#[trigger] filtered(docs, filter)[k]).collection@, filter)
                && exists|v: int| 0 <= v < docs.len() && docs[v] == filtered(docs, filter)[k],
    decreases docs.len(),
{
    if docs.len() > 0 {
        let init = docs.drop_last();
        lemma_filtered(init, filter);
        let fl = filtered(docs, filter);
        assert forall|k: int| 0 <= k < fl.len() implies passes((#[trigger] fl[k]).collection@, filter)
            && exists|v: int| 0 <= v < docs.len() && docs[v] == fl[k] by {
            if k < filtered(init, filter).len() {
                assert(fl[k] == filtered(init, filter)[k]);
                let v = choose|v: int| 0 <= v < init.len() && init[v] == filtered(init, filter)[k];
                assert(docs[v] == init[v]);
            } else {
                assert(docs[docs.len() - 1] == fl[k]);
            }
        }
    }
}

/// The documents that pass the filter, in order.
pub fn filter_docs<'a>(documents: &'a Vec<Document>, filter: Option<&str>) -> (r: Vec<&'a Document>)
    ensures
        derefs(r@) == filtered(documents@, opt_view(filter)),
{
    let mut r: Vec<&Document> = Vec::new();
    let mut t: usize = 0;
    while t < documents.len()
        invariant
            t <= documents@.len(),
            derefs(r@) == filtered(documents@.take(t as int), opt_view(filter)),
        decreases documents.len() - t,
    {
        let ghost pre = documents@.take(t as int);
        let ghost post = documents@.take(t + 1);
        assert(post.drop_last() =~= pre);
        let d = &documents[t];
        assert(post.last() == *d);
        let ghost before = r@;
        if passes_exec(d.collection.as_str(), filter) {
            r.push(d);
            assert(derefs(r@) =~= derefs(before).push(*d));
        }
        t = t + 1;
    }
    assert(documents@.take(documents@.len() as int) =~= documents@);
    r
}

/// The positions of the documents of collection `c`, in order.
pub fn indices_in(docs: &Vec<&Document>, c: &[char]) -> (r: Vec<usize>)
    ensures
        r@.len() == idx_in(derefs(docs@), c@).len(),
        forall|k: int| 0 <= k < r@.len() ==> (#[trigger] r@[k]) as int == idx_in(derefs(docs@), c@)[k],
{
    let ghost ds = derefs(docs@);
    let mut r: Vec<usize> = Vec::new();
    let mut t: usize = 0;
    while t < docs.len()
        invariant
            t <= docs@.len(),
            ds == derefs(docs@),
            r@.len() == idx_in(ds.take(t as int), c@).len(),
            forall|k: int| 0 <= k < r@.len() ==> (#[trigger] r@[k]) as int == idx_in(ds.take(t as int), c@)[k],
        decreases docs.len() - t,
    {
        let ghost pre = ds.take(t as int);
        let ghost post = ds.take(t + 1);
        assert(post.drop_last() =~= pre);
        let d = docs[t];
        assert(post.last() == *d);
        let dc = chars_of(d.collection.as_str());
        if chars_eq(dc.as_slice(), c) {
            r.push(t);
        }
        t = t + 1;
    }
    assert(ds.take(ds.len() as int) =~= ds);
    r
}

/// The name as a string.
pub fn name_string(n: &Vec<char>) -> (r: String)
    ensures
        r@ == n@,
{
    string_of(n.as_slice())
}

} // verus!
