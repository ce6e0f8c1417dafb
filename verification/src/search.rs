//! Ranking of full-text search hits.
//!
//! Queries fan out to every collection's store (at the application's edge);
//! the hits that come back are merged here: deduplicated by URI (one result
//! per URI, its highest-scoring chunk), ranked by score, mapped back to
//! documents, filtered by section scope and cut to the requested number.
//!
//! Scores are carried as order keys: unsigned integers that order the hits
//! as their scores do.

use vstd::prelude::*;
use crate::format::{extract_summary, summary_of};
use crate::index::{lemma_position_of_doc, position_of_doc};
use crate::store::{parse_uri, split_uri};
use crate::text::{chars_eq, chars_of, has_prefix, is_blank, is_blank_exec, starts_with};
use crate::types::Document;

verus! {

/// One hit returned by a collection's store.
pub struct SearchHit {
    /// `<collection>://<relative-path>` of the document the chunk belongs to.
    pub uri: String,
    /// Orders hits as their scores do: a higher key is a higher score.
    pub score_key: u64,
    /// The matching chunk's text (may be empty).
    pub snippet: String,
}

/// One ranked result.
pub struct RankedHit {
    /// The position of the hit in the list of hits.
    pub hit: usize,
    /// The position of the document in the document list.
    pub doc_index: usize,
    /// The hit's snippet, or the summary of the document when it is empty.
    pub excerpt: String,
}

/// Hit `i` is the one kept for its URI: the highest key, the first such hit
/// on ties.
pub open spec fn is_rep(hits: Seq<SearchHit>, i: int) -> bool {
    &&& 0 <= i < hits.len()
    &&& forall|j: int|
        #![trigger hits[j]]
        0 <= j < hits.len() && hits[j].uri@ == hits[i].uri@ ==> (hits[j].score_key
            < hits[i].score_key || (hits[j].score_key == hits[i].score_key && i <= j))
}

/// Hit `i` ranks before hit `j`: a higher key, or the same key and an
/// earlier position.
pub open spec fn ranks_before(hits: Seq<SearchHit>, i: int, j: int) -> bool {
    hits[i].score_key > hits[j].score_key || (hits[i].score_key == hits[j].score_key && i < j)
}

/// `order` lists the kept hits, each once, best first.
pub open spec fn is_ranking(hits: Seq<SearchHit>, order: Seq<usize>) -> bool {
    &&& forall|k: int| 0 <= k < order.len() ==> is_rep(hits, #[trigger] order[k] as int)
    &&& forall|i: int| is_rep(hits, i) ==> order.contains(i as usize)
    &&& forall|a: int, b: int|
        0 <= a < b < order.len() ==> ranks_before(hits, order[a] as int, order[b] as int)
}

/// The document a hit maps to, if it passes: its URI `<collection>://<path>`
/// parses, some document of that collection is at that path, and that
/// document's section starts with the scope.
pub open spec fn accepted(docs: Seq<Document>, hit: SearchHit, scope: Option<Seq<char>>) -> Option<int> {
    match split_uri(hit.uri@) {
        Some((coll, path)) => match position_of_doc(docs, coll, path) {
            Some(d) => if (scope matches Some(s) ==> has_prefix(docs[d].section@, s)) {
                Some(d)
            } else {
                None
            },
            None => None,
        },
        None => None,
    }
}

/// The accepted hits of `order`, with their documents, in order.
pub open spec fn accepted_in(
    docs: Seq<Document>,
    hits: Seq<SearchHit>,
    scope: Option<Seq<char>>,
    order: Seq<usize>,
) -> Seq<(int, int)>
    decreases order.len(),
{
    if order.len() == 0 {
        Seq::empty()
    } else {
        let prev = accepted_in(docs, hits, scope, order.drop_last());
        let i = order.last() as int;
        match accepted(docs, hits[i], scope) {
            Some(d) => prev.push((i, d)),
            None => prev,
        }
    }
}

/// The excerpt of hit `i` for document `d`.
pub open spec fn excerpt_of(docs: Seq<Document>, hits: Seq<SearchHit>, i: int, d: int) -> Seq<char> {
    if hits[i].snippet@.len() > 0 {
        hits[i].snippet@
    } else {
        summary_of(docs[d].body@)
    }
}

/// The number of results asked for.
pub open spec fn result_cap(max_results: nat) -> nat {
    max_results
}

/// `results` are the first accepted hits of the ranking, up to the cap.
pub open spec fn ranked_results(
    results: Seq<RankedHit>,
    docs: Seq<Document>,
    hits: Seq<SearchHit>,
    scope: Option<Seq<char>>,
    max_results: nat,
) -> bool {
    exists|order: Seq<usize>|
        {
            &&& is_ranking(hits, order)
            &&& {
                let acc = accepted_in(docs, hits, scope, order);
                &&& results.len() == if acc.len() < result_cap(max_results) {
                    acc.len()
                } else {
                    result_cap(max_results)
                }
                &&& forall|k: int|
                    #![trigger results[k]]
                    0 <= k < results.len() ==> results[k].hit as int == acc[k].0
                        && results[k].doc_index as int == acc[k].1 && results[k].excerpt@
                        == excerpt_of(docs, hits, acc[k].0, acc[k].1)
            }
        }
}

/// The position of the first document of `collection` at `path`.
pub fn position_of(documents: &Vec<Document>, collection: &str, path: &str) -> (r: Option<usize>)
    ensures
        match r {
            Some(j) => position_of_doc(documents@, collection@, path@) == Some(j as int),
            None => position_of_doc(documents@, collection@, path@) is None,
        },
{
    let c = chars_of(collection);
    let p = chars_of(path);
    let mut i: usize = 0;
    assert(documents@.skip(0) =~= documents@);
    while i < documents.len()
        invariant
            i <= documents@.len(),
            c@ == collection@,
            p@ == path@,
            position_of_doc(documents@, collection@, path@) == match position_of_doc(documents@.skip(i as int), collection@, path@) {
                Some(k) => Some(k + i),
                None => None,
            },
        decreases documents.len() - i,
    {
        let ghost rest = documents@.skip(i as int);
        assert(rest[0] == documents@[i as int]);
        let dc = chars_of(documents[i].collection.as_str());
        let dp = chars_of(documents[i].path.as_str());
        if chars_eq(dc.as_slice(), c.as_slice()) && chars_eq(dp.as_slice(), p.as_slice()) {
            return Some(i);
        }
        assert(rest.drop_first() =~= documents@.skip(i + 1));
        i = i + 1;
    }
    None
}

/// Whether a query is empty or only white space.
pub fn is_blank_query(query: &str) -> (r: bool)
    ensures
        r == is_blank(query@),
{
    let q = chars_of(query);
    is_blank_exec(q.as_slice())
}

/// How many hits to ask each store for: three times the requested results,
/// to leave room for deduplication and the scope filter.
pub fn fetch_limit(max_results: usize) -> (r: usize)
    requires
        max_results * 3 <= usize::MAX,
    ensures
        r == max_results * 3,
{
    max_results * 3
}

proof fn lemma_rep_extend(hits: Seq<SearchHit>, n: int, x: int)
    requires
        0 <= n < hits.len(),
        is_rep(hits.take(n), x),
        hits[n].uri@ != hits[x].uri@ || hits[n].score_key < hits[x].score_key || (hits[n].score_key
            == hits[x].score_key && x <= n),
    ensures
        is_rep(hits.take(n + 1), x),
{
    let pre = hits.take(n);
    let post = hits.take(n + 1);
    assert forall|j: int| #![trigger post[j]] 0 <= j < post.len() && post[j].uri@ == post[x].uri@ implies (
    post[j].score_key < post[x].score_key || (post[j].score_key == post[x].score_key && x <= j)) by {
        if j < n {
            assert(pre[j] == post[j]);
        }
    }
}

proof fn lemma_rep_new(hits: Seq<SearchHit>, n: int)
    requires
        0 <= n < hits.len(),
        forall|j: int| 0 <= j < n ==> #[trigger] hits[j].uri@ != hits[n].uri@,
    ensures
        is_rep(hits.take(n + 1), n),
{
    let post = hits.take(n + 1);
    assert forall|j: int| #![trigger post[j]] 0 <= j < post.len() && post[j].uri@ == post[n].uri@ implies (
    post[j].score_key < post[n].score_key || (post[j].score_key == post[n].score_key && n <= j)) by {
        if j < n {
            assert(post[j] == hits[j]);
        }
    }
}

proof fn lemma_rep_replace(hits: Seq<SearchHit>, n: int, r: int)
    requires
        0 <= n < hits.len(),
        is_rep(hits.take(n), r),
        hits[r].uri@ == hits[n].uri@,
        hits[n].score_key > hits[r].score_key,
    ensures
        is_rep(hits.take(n + 1), n),
{
    let pre = hits.take(n);
    let post = hits.take(n + 1);
    assert forall|j: int| #![trigger post[j]] 0 <= j < post.len() && post[j].uri@ == post[n].uri@ implies (
    post[j].score_key < post[n].score_key || (post[j].score_key == post[n].score_key && n <= j)) by {
        if j < n {
            assert(pre[j] == post[j]);
            assert(pre[j].score_key <= pre[r].score_key);
        }
    }
}

/// Hit `j`'s URI has a representative in `reps`.
spec fn has_rep(hits: Seq<SearchHit>, reps: Seq<usize>, j: int) -> bool {
    exists|a: int| 0 <= a < reps.len() && hits[reps[a] as int].uri@ == hits[j].uri@
}

/// The representative hits of the URIs seen in `hits[..n]`.
spec fn reps_of_prefix(hits: Seq<SearchHit>, n: int, reps: Seq<usize>) -> bool {
    &&& forall|a: int| 0 <= a < reps.len() ==> #[trigger] reps[a] < n
    &&& forall|a: int, b: int| 0 <= a < b < reps.len() ==> hits[reps[a] as int].uri@ != hits[reps[b] as int].uri@
    &&& forall|a: int| 0 <= a < reps.len() ==> is_rep(hits.take(n), #[trigger] reps[a] as int)
    &&& forall|j: int| 0 <= j < n ==> #[trigger] has_rep(hits, reps, j)
}

fn find_slot(hits: &Vec<SearchHit>, reps: &Vec<usize>, i: usize) -> (s: usize)
    requires
        i < hits@.len(),
        reps_of_prefix(hits@, i as int, reps@),
    ensures
        s <= reps@.len(),
        forall|a: int| 0 <= a < s ==> hits@[reps@[a] as int].uri@ != hits@[i as int].uri@,
        s < reps@.len() ==> hits@[reps@[s as int] as int].uri@ == hits@[i as int].uri@,
{
    let u = chars_of(hits[i].uri.as_str());
    let mut s: usize = 0;
    while s < reps.len()
        invariant
            s <= reps@.len(),
            i < hits@.len(),
            u@ == hits@[i as int].uri@,
            reps_of_prefix(hits@, i as int, reps@),
            forall|a: int| 0 <= a < s ==> hits@[reps@[a] as int].uri@ != u@,
        decreases reps.len() - s,
    {
        let r = reps[s];
        let ru = chars_of(hits[r].uri.as_str());
        if chars_eq(ru.as_slice(), u.as_slice()) {
            return s;
        }
        s = s + 1;
    }
    s
}

fn keep_best_step(hits: &Vec<SearchHit>, reps: &mut Vec<usize>, i: usize)
    requires
        i < hits@.len(),
        reps_of_prefix(hits@, i as int, old(reps)@),
    ensures
        reps_of_prefix(hits@, i + 1, final(reps)@),
{
    let ghost pre = hits@.take(i as int);
    let ghost post = hits@.take(i + 1);
    let ghost u = hits@[i as int].uri@;
    let s = find_slot(hits, reps, i);
    let ghost prev = reps@;
    if s == reps.len() {
        reps.push(i);
        proof {
            assert forall|a: int| 0 <= a < reps@.len() implies is_rep(post, #[trigger] reps@[a] as int) by {
                if a < prev.len() {
                    assert(reps@[a] == prev[a]);
                    lemma_rep_extend(hits@, i as int, prev[a] as int);
                } else {
                    assert forall|j: int| 0 <= j < i implies #[trigger] hits@[j].uri@ != u by {
                        assert(has_rep(hits@, prev, j));
                        let b = choose|b: int| 0 <= b < prev.len() && hits@[prev[b] as int].uri@ == hits@[j].uri@;
                    }
                    lemma_rep_new(hits@, i as int);
                }
            }
            assert forall|j: int| 0 <= j < i + 1 implies #[trigger] has_rep(hits@, reps@, j) by {
                if j < i {
                    assert(has_rep(hits@, prev, j));
                    let a = choose|a: int| 0 <= a < prev.len() && hits@[prev[a] as int].uri@ == hits@[j].uri@;
                    assert(reps@[a] == prev[a]);
                } else {
                    assert(reps@[prev.len() as int] == i);
                }
            }
        }
    } else {
        let r = reps[s];
        proof {
            assert(is_rep(pre, r as int));
        }
        if hits[i].score_key > hits[r].score_key {
            reps.set(s, i);
            proof {
                lemma_rep_replace(hits@, i as int, r as int);
            }
        } else {
            proof {
                lemma_rep_extend(hits@, i as int, r as int);
            }
        }
        proof {
            assert forall|a: int| 0 <= a < reps@.len() implies is_rep(post, #[trigger] reps@[a] as int) by {
                if a != s {
                    assert(reps@[a] == prev[a]);
                    assert(hits@[prev[a] as int].uri@ != hits@[r as int].uri@);
                    lemma_rep_extend(hits@, i as int, prev[a] as int);
                }
            }
            assert forall|j: int| 0 <= j < i + 1 implies #[trigger] has_rep(hits@, reps@, j) by {
                if j < i {
                    assert(has_rep(hits@, prev, j));
                    let a = choose|a: int| 0 <= a < prev.len() && hits@[prev[a] as int].uri@ == hits@[j].uri@;
                    if a == s {
                        assert(hits@[reps@[a] as int].uri@ == u);
                    } else {
                        assert(reps@[a] == prev[a]);
                    }
                } else {
                    assert(hits@[reps@[s as int] as int].uri@ == u);
                }
            }
            assert forall|a: int, b: int| 0 <= a < b < reps@.len() implies hits@[reps@[a] as int].uri@ != hits@[reps@[b] as int].uri@ by {
                assert(hits@[reps@[s as int] as int].uri@ == hits@[prev[s as int] as int].uri@);
                if a != s {
                    assert(reps@[a] == prev[a]);
                }
                if b != s {
                    assert(reps@[b] == prev[b]);
                }
            }
        }
    }
}

fn keep_best(hits: &Vec<SearchHit>) -> (reps: Vec<usize>)
    ensures
        forall|a: int| 0 <= a < reps@.len() ==> is_rep(hits@, #[trigger] reps@[a] as int),
        forall|i: int| is_rep(hits@, i) ==> reps@.contains(i as usize),
        forall|a: int, b: int| 0 <= a < b < reps@.len() ==> reps@[a] != reps@[b],
{
    let mut reps: Vec<usize> = Vec::new();
    let mut i: usize = 0;
    while i < hits.len()
        invariant
            i <= hits@.len(),
            reps_of_prefix(hits@, i as int, reps@),
        decreases hits.len() - i,
    {
        keep_best_step(hits, &mut reps, i);
        i = i + 1;
    }
    proof {
        assert(hits@.take(hits@.len() as int) =~= hits@);
        assert forall|x: int| is_rep(hits@, x) implies reps@.contains(x as usize) by {
            assert(has_rep(hits@, reps@, x));
            let a = choose|a: int| 0 <= a < reps@.len() && hits@[reps@[a] as int].uri@ == hits@[x].uri@;
            let r = reps@[a] as int;
            assert(is_rep(hits@, r));
            if r != x {
                assert(hits@[x].score_key <= hits@[r].score_key);
                assert(hits@[r].score_key <= hits@[x].score_key);
            }
        }
        assert forall|a: int, b: int| 0 <= a < b < reps@.len() implies reps@[a] != reps@[b] by {
            assert(hits@[reps@[a] as int].uri@ != hits@[reps@[b] as int].uri@);
        }
    }
    reps
}

fn rank_reps(hits: &Vec<SearchHit>, reps: &Vec<usize>) -> (order: Vec<usize>)
    requires
        forall|a: int| 0 <= a < reps@.len() ==> #[trigger] reps@[a] < hits@.len(),
        forall|a: int, b: int| 0 <= a < b < reps@.len() ==> reps@[a] != reps@[b],
    ensures
        order@.len() == reps@.len(),
        forall|x: usize| order@.contains(x) <==> reps@.contains(x),
        forall|a: int, b: int| 0 <= a < b < order@.len() ==> ranks_before(hits@, order@[a] as int, order@[b] as int),
{
    let mut order: Vec<usize> = Vec::new();
    let mut k: usize = 0;
    while k < reps.len()
        invariant
            k <= reps@.len(),
            forall|a: int| 0 <= a < reps@.len() ==> #[trigger] reps@[a] < hits@.len(),
            forall|a: int, b: int| 0 <= a < b < reps@.len() ==> reps@[a] != reps@[b],
            order@.len() == k,
            forall|a: int| 0 <= a < order@.len() ==> order@[a] < hits@.len(),
            forall|x: usize| order@.contains(x) <==> reps@.take(k as int).contains(x),
            forall|a: int, b: int| 0 <= a < b < order@.len() ==> ranks_before(hits@, order@[a] as int, order@[b] as int),
        decreases reps.len() - k,
    {
        let x = reps[k];
        let mut pos: usize = order.len();
        while pos > 0 && (hits[x].score_key > hits[order[pos - 1]].score_key || (hits[x].score_key == hits[order[pos - 1]].score_key && x < order[pos - 1]))
            invariant
                pos <= order@.len(),
                x < hits@.len(),
                forall|a: int| 0 <= a < order@.len() ==> order@[a] < hits@.len(),
                forall|j: int| pos <= j < order@.len() ==> ranks_before(hits@, x as int, #[trigger] order@[j] as int),
            decreases pos,
        {
            pos = pos - 1;
        }
        proof {
            assert(!order@.contains(x)) by {
                if order@.contains(x) {
                    let c = choose|c: int| 0 <= c < k && #[trigger] reps@.take(k as int)[c] == x;
                    assert(reps@[c] == x);
                }
            }
            if pos > 0 {
                let y = order@[pos - 1] as int;
                assert(y != x);
                assert(ranks_before(hits@, y, x as int));
            }
        }
        let ghost prev = order@;
        order.insert(pos, x);
        proof {
            assert(order@ == prev.insert(pos as int, x));
            assert forall|a: int, b: int| 0 <= a < b < order@.len() implies ranks_before(hits@, order@[a] as int, order@[b] as int) by {
                if b < pos {
                } else if a < pos && b == pos {
                    let y = prev[pos - 1] as int;
                    if a < pos - 1 {
                        assert(ranks_before(hits@, prev[a] as int, y));
                    }
                } else if a < pos {
                    assert(order@[b] == prev[b - 1]);
                    let y = prev[pos - 1] as int;
                    assert(ranks_before(hits@, x as int, prev[b - 1] as int));
                    if a < pos - 1 {
                        assert(ranks_before(hits@, prev[a] as int, y));
                    }
                    assert(ranks_before(hits@, y, x as int));
                } else if a == pos {
                    assert(order@[b] == prev[b - 1]);
                } else {
                    assert(order@[a] == prev[a - 1]);
                    assert(order@[b] == prev[b - 1]);
                }
            }
            let t0 = reps@.take(k as int);
            let t1 = reps@.take(k + 1);
            assert(t1[k as int] == x);
            assert forall|e: int| 0 <= e < k implies t1[e] == #[trigger] t0[e] by {}
            assert forall|z: usize| order@.contains(z) <==> t1.contains(z) by {
                if order@.contains(z) {
                    let c = choose|c: int| 0 <= c < order@.len() && order@[c] == z;
                    if c < pos {
                        assert(prev[c] == z);
                        assert(prev.contains(z));
                        let e = choose|e: int| 0 <= e < k && t0[e] == z;
                        assert(t1[e] == z);
                    } else if c == pos {
                        assert(t1[k as int] == z);
                    } else {
                        assert(prev[c - 1] == z);
                        assert(prev.contains(z));
                        let e = choose|e: int| 0 <= e < k && t0[e] == z;
                        assert(t1[e] == z);
                    }
                }
                if t1.contains(z) {
                    let e = choose|e: int| 0 <= e < k + 1 && t1[e] == z;
                    if e < k {
                        assert(t0[e] == z);
                        assert(prev.contains(z));
                        let c = choose|c: int| 0 <= c < prev.len() && prev[c] == z;
                        if c < pos {
                            assert(order@[c] == z);
                        } else {
                            assert(order@[c + 1] == z);
                        }
                    } else {
                        assert(order@[pos as int] == z);
                    }
                }
            }
        }
        k = k + 1;
    }
    assert(reps@.take(reps@.len() as int) =~= reps@);
    order
}

/// The document a hit maps to, if it passes the scope filter.
fn accept_hit(documents: &Vec<Document>, hit: &SearchHit, scope: Option<&str>) -> (r: Option<usize>)
    ensures
        match r {
            Some(d) => accepted(documents@, *hit, crate::query::opt_view(scope)) == Some(d as int),
            None => accepted(documents@, *hit, crate::query::opt_view(scope)) is None,
        },
        r matches Some(d) ==> d < documents@.len(),
{
    let parsed = parse_uri(hit.uri.as_str());
    match parsed {
        Some((coll, rel_path)) => {
            let ghost path = rel_path@;
            assert(split_uri(hit.uri@) is Some);
            assert(split_uri(hit.uri@).unwrap().1 == path);
            assert(split_uri(hit.uri@).unwrap().0 == coll@);
            match position_of(documents, coll, rel_path) {
                Some(d) => {
                    proof {
                        lemma_position_of_doc(documents@, coll@, path);

                    }
                    match scope {
                        Some(s) => {
                            let sec = chars_of(documents[d].section.as_str());
                            let sc2 = chars_of(s);
                            if starts_with(sec.as_slice(), sc2.as_slice()) {
                                assert(has_prefix(documents@[d as int].section@, s@));
                                Some(d)
                            } else {
                                assert(!has_prefix(documents@[d as int].section@, s@));
                                None
                            }
                        },
                        None => Some(d),
                    }
                },
                None => {
                    assert(position_of_doc(documents@, coll@, path) is None);
                    None
                },
            }
        },
        None => None,
    }
}

/// Search gives as many results as are asked for unless fewer hits pass:
/// never more than `max_results`, and for the ranking the results follow,
/// exactly `max_results` when at least that many kept hits are accepted,
/// else all of them.
pub proof fn lemma_result_count(
    results: Seq<RankedHit>,
    docs: Seq<Document>,
    hits: Seq<SearchHit>,
    scope: Option<Seq<char>>,
    max_results: nat,
)
    requires
        ranked_results(results, docs, hits, scope, max_results),
    ensures
        results.len() <= max_results,
        exists|order: Seq<usize>|
            is_ranking(hits, order) && {
                let n = accepted_in(docs, hits, scope, order).len();
                &&& n >= max_results ==> results.len() == max_results
                &&& n < max_results ==> results.len() == n
            },
{
}

/// Merges search hits into ranked results: one per URI (its highest-scoring
/// hit, the first on ties), ordered by score (ties by hit position), mapped
/// to the document of the hit's collection and relative path (one result
/// per document), filtered by section scope, and cut to `max_results` (none
/// when it is 0).
pub fn rank_hits(
    documents: &Vec<Document>,
    hits: &Vec<SearchHit>,
    scope: Option<&str>,
    max_results: usize,
) -> (r: Vec<RankedHit>)
    ensures
        ranked_results(r@, documents@, hits@, crate::query::opt_view(scope), max_results as nat),
        forall|q: int|
            #![trigger r@[q]]
            0 <= q < r@.len() ==> r@[q].hit < hits@.len() && r@[q].doc_index < documents@.len() && split_uri(
                hits@[r@[q].hit as int].uri@,
            ) == Some((documents@[r@[q].doc_index as int].collection@, documents@[r@[q].doc_index as int].path@)),
        forall|a: int, b: int| 0 <= a < b < r@.len() ==> r@[a].doc_index != r@[b].doc_index,
{
    let reps = keep_best(hits);
    let order = rank_reps(hits, &reps);
    let ghost sc = crate::query::opt_view(scope);
    proof {
        assert forall|k: int| 0 <= k < order@.len() implies is_rep(hits@, #[trigger] order@[k] as int) by {
            assert(order@.contains(order@[k]));
            assert(reps@.contains(order@[k]));
        }
        assert forall|i: int| is_rep(hits@, i) implies order@.contains(i as usize) by {
            assert(reps@.contains(i as usize));
        }
        assert(is_ranking(hits@, order@));
    }
    let mut results: Vec<RankedHit> = Vec::new();
    let mut k: usize = 0;
    let mut done = max_results == 0;
    while k < order.len() && !done
        invariant
            k <= order@.len(),
            is_ranking(hits@, order@),
            sc == crate::query::opt_view(scope),
            done ==> results@.len() == result_cap(max_results as nat),
            !done ==> results@.len() == accepted_in(documents@, hits@, sc, order@.take(k as int)).len()
                && results@.len() < result_cap(max_results as nat),
            results@.len() <= accepted_in(documents@, hits@, sc, order@.take(k as int)).len(),
            forall|q: int|
                #![trigger results@[q]]
                0 <= q < results@.len() ==> results@[q].hit as int == accepted_in(documents@, hits@, sc, order@.take(k as int))[q].0
                    && results@[q].doc_index as int == accepted_in(documents@, hits@, sc, order@.take(k as int))[q].1
                    && results@[q].excerpt@ == excerpt_of(documents@, hits@, accepted_in(documents@, hits@, sc, order@.take(k as int))[q].0, accepted_in(documents@, hits@, sc, order@.take(k as int))[q].1),
        decreases order.len() - k,
    {
        let i = order[k];
        let ghost pre = order@.take(k as int);
        let ghost post = order@.take(k + 1);
        assert(post.drop_last() =~= pre);
        assert(post.last() == i);
        proof {
            assert(is_rep(hits@, i as int));
        }
        let hit = &hits[i];
        let acc = accept_hit(documents, hit, scope);
        match acc {
            Some(d) => {
                let snippet_chars = chars_of(hit.snippet.as_str());
                let excerpt = if snippet_chars.len() > 0 {
                    hit.snippet.clone()
                } else {
                    extract_summary(documents[d].body.as_str())
                };
                results.push(RankedHit { hit: i, doc_index: d, excerpt });
                if results.len() >= max_results {
                    done = true;
                }
            },
            None => {},
        }
        k = k + 1;
    }
    proof {
        let acc = accepted_in(documents@, hits@, sc, order@);
        if !done {
            assert(order@.take(k as int) =~= order@);
        } else {
            lemma_accepted_prefix(documents@, hits@, sc, order@, k as int);
        }
        assert(ranked_results(results@, documents@, hits@, sc, max_results as nat)) by {
            assert(is_ranking(hits@, order@));
        }
        lemma_accepted_facts(documents@, hits@, sc, order@);
        let acc2 = accepted_in(documents@, hits@, sc, order@.take(k as int));
        assert forall|q: int| #![trigger results@[q]] 0 <= q < results@.len() implies results@[q].hit < hits@.len()
            && results@[q].doc_index < documents@.len() && split_uri(hits@[results@[q].hit as int].uri@) == Some(
            (documents@[results@[q].doc_index as int].collection@, documents@[results@[q].doc_index as int].path@),
        ) by {
            assert(acc[q] == acc2[q]);
            lemma_accepted_doc(documents@, hits@[acc[q].0], sc);
        }
        assert forall|a: int, b: int| 0 <= a < b < results@.len() implies results@[a].doc_index != results@[b].doc_index by {
            assert(acc[a] == acc2[a]);
            assert(acc[b] == acc2[b]);
            let ia = acc[a].0;
            let ib = acc[b].0;
            assert(ia != ib);
            lemma_accepted_doc(documents@, hits@[ia], sc);
            lemma_accepted_doc(documents@, hits@[ib], sc);
            if results@[a].doc_index == results@[b].doc_index {
                crate::store::lemma_split_uri_rebuilds(hits@[ia].uri@);
                crate::store::lemma_split_uri_rebuilds(hits@[ib].uri@);
                assert(hits@[ia].uri@ == hits@[ib].uri@);
                assert(hits@[ib].score_key < hits@[ia].score_key || (hits@[ib].score_key == hits@[ia].score_key && ia <= ib));
                assert(hits@[ia].score_key < hits@[ib].score_key || (hits@[ia].score_key == hits@[ib].score_key && ib <= ia));
            }
        }
    }
    results
}

/// An accepted hit's URI names the collection and path of its document.
proof fn lemma_accepted_doc(docs: Seq<Document>, hit: SearchHit, scope: Option<Seq<char>>)
    ensures
        accepted(docs, hit, scope) matches Some(d) ==> 0 <= d < docs.len() && split_uri(hit.uri@) == Some(
            (docs[d].collection@, docs[d].path@),
        ),
{
    if let Some((c, p)) = split_uri(hit.uri@) {
        lemma_position_of_doc(docs, c, p);
    }
}

/// Each accepted entry comes from a representative hit of `order`, with the
/// document the hit maps to; entries come from distinct hits.
proof fn lemma_accepted_facts(docs: Seq<Document>, hits: Seq<SearchHit>, scope: Option<Seq<char>>, order: Seq<usize>)
    requires
        is_ranking(hits, order),
    ensures
        forall|q: int|
            #![trigger accepted_in(docs, hits, scope, order)[q]]
            0 <= q < accepted_in(docs, hits, scope, order).len() ==> is_rep(hits, accepted_in(docs, hits, scope, order)[q].0)
                && accepted(docs, hits[accepted_in(docs, hits, scope, order)[q].0], scope) == Some(
                accepted_in(docs, hits, scope, order)[q].1,
            ),
        forall|a: int, b: int|
            0 <= a < b < accepted_in(docs, hits, scope, order).len() ==> accepted_in(docs, hits, scope, order)[a].0
                != accepted_in(docs, hits, scope, order)[b].0,
    decreases order.len(),
{
    if order.len() > 0 {
        assert forall|a: int, b: int| 0 <= a < b < order.len() implies order[a] != order[b] by {
            assert(ranks_before(hits, order[a] as int, order[b] as int));
        }
        lemma_accepted_facts_init(docs, hits, scope, order);
    }
}

proof fn lemma_accepted_facts_init(docs: Seq<Document>, hits: Seq<SearchHit>, scope: Option<Seq<char>>, order: Seq<usize>)
    requires
        forall|k: int| 0 <= k < order.len() ==> is_rep(hits, #[trigger] order[k] as int),
        forall|a: int, b: int| 0 <= a < b < order.len() ==> order[a] != order[b],
    ensures
        forall|q: int|
            #![trigger accepted_in(docs, hits, scope, order)[q]]
            0 <= q < accepted_in(docs, hits, scope, order).len() ==> is_rep(hits, accepted_in(docs, hits, scope, order)[q].0)
                && accepted(docs, hits[accepted_in(docs, hits, scope, order)[q].0], scope) == Some(
                accepted_in(docs, hits, scope, order)[q].1,
            ) && exists|k: int| 0 <= k < order.len() && order[k] as int == accepted_in(docs, hits, scope, order)[q].0,
        forall|a: int, b: int|
            0 <= a < b < accepted_in(docs, hits, scope, order).len() ==> accepted_in(docs, hits, scope, order)[a].0
                != accepted_in(docs, hits, scope, order)[b].0,
    decreases order.len(),
{
    if order.len() > 0 {
        let init = order.drop_last();
        assert forall|k: int| 0 <= k < init.len() implies is_rep(hits, #[trigger] init[k] as int) by {
            assert(init[k] == order[k]);
        }
        assert forall|a: int, b: int| 0 <= a < b < init.len() implies init[a] != init[b] by {
            assert(init[a] == order[a] && init[b] == order[b]);
        }
        lemma_accepted_facts_init(docs, hits, scope, init);
        let prev = accepted_in(docs, hits, scope, init);
        let cur = accepted_in(docs, hits, scope, order);
        let i = order.last() as int;
        assert(is_rep(hits, i)) by {
            assert(order[order.len() - 1] == order.last());
        }
        assert forall|q: int| 0 <= q < prev.len() implies prev[q].0 != i by {
            let k = choose|k: int| 0 <= k < init.len() && init[k] as int == prev[q].0;
            assert(init[k] == order[k]);
            assert(order[k] != order[order.len() - 1]);
        }
        assert forall|q: int| #![trigger cur[q]] 0 <= q < cur.len() implies exists|k: int|
            0 <= k < order.len() && order[k] as int == cur[q].0 by {
            if q < prev.len() {
                assert(cur[q] == prev[q]);
                let k = choose|k: int| 0 <= k < init.len() && init[k] as int == prev[q].0;
                assert(init[k] == order[k]);
            } else {
                assert(order[order.len() - 1] as int == cur[q].0);
            }
        }
        assert forall|q: int| #![trigger cur[q]] 0 <= q < cur.len() implies is_rep(hits, cur[q].0)
            && accepted(docs, hits[cur[q].0], scope) == Some(cur[q].1) by {
            if q < prev.len() {
                assert(cur[q] == prev[q]);
            }
        }
        assert forall|a: int, b: int| 0 <= a < b < cur.len() implies cur[a].0 != cur[b].0 by {
            if b < prev.len() {
                assert(cur[a] == prev[a] && cur[b] == prev[b]);
            } else {
                assert(cur[a] == prev[a]);
            }
        }
    }
}

proof fn lemma_accepted_prefix(
    docs: Seq<Document>,
    hits: Seq<SearchHit>,
    scope: Option<Seq<char>>,
    order: Seq<usize>,
    k: int,
)
    requires
        0 <= k <= order.len(),
    ensures
        accepted_in(docs, hits, scope, order.take(k)).len() <= accepted_in(docs, hits, scope, order).len(),
        forall|q: int|
            0 <= q < accepted_in(docs, hits, scope, order.take(k)).len() ==> accepted_in(docs, hits, scope, order.take(k))[q]
                == accepted_in(docs, hits, scope, order)[q],
    decreases order.len() - k,
{
    if k == order.len() {
        assert(order.take(k) =~= order);
    } else {
        lemma_accepted_prefix(docs, hits, scope, order, k + 1);
        let t = order.take(k + 1);
        assert(t.drop_last() =~= order.take(k));
    }
}

} // verus!
