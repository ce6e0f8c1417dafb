//! Lexicographic order on strings and a stable sort by string keys.
//!
//! `String`'s `Ord` compares UTF-8 bytes lexicographically, which orders
//! strings exactly as the lexicographic order on their code points does;
//! `lex_lt` states that order on `Seq<char>`.

use vstd::prelude::*;

verus! {

/// `a < b` in the lexicographic order of code points.
pub open spec fn lex_lt(a: Seq<char>, b: Seq<char>) -> bool
    decreases a.len(),
{
    if a.len() == 0 {
        b.len() > 0
    } else if b.len() == 0 {
        false
    } else if a[0] != b[0] {
        (a[0] as int) < (b[0] as int)
    } else {
        lex_lt(a.drop_first(), b.drop_first())
    }
}

pub proof fn lemma_lex_irreflexive(a: Seq<char>)
    ensures
        !lex_lt(a, a),
    decreases a.len(),
{
    if a.len() > 0 {
        lemma_lex_irreflexive(a.drop_first());
    }
}

pub proof fn lemma_lex_transitive(a: Seq<char>, b: Seq<char>, c: Seq<char>)
    requires
        lex_lt(a, b),
        lex_lt(b, c),
    ensures
        lex_lt(a, c),
    decreases a.len(),
{
    if a.len() > 0 && b.len() > 0 && c.len() > 0 {
        if a[0] == b[0] && b[0] == c[0] {
            lemma_lex_transitive(a.drop_first(), b.drop_first(), c.drop_first());
        }
    }
}

pub proof fn lemma_lex_total(a: Seq<char>, b: Seq<char>)
    ensures
        a == b || lex_lt(a, b) || lex_lt(b, a),
    decreases a.len(),
{
    if a.len() > 0 && b.len() > 0 {
        if a[0] == b[0] {
            lemma_lex_total(a.drop_first(), b.drop_first());
            if a.drop_first() == b.drop_first() {
                assert(a =~= seq![a[0]] + a.drop_first());
                assert(b =~= seq![b[0]] + b.drop_first());
            }
        } else {
        }
    } else if a.len() == 0 && b.len() == 0 {
        assert(a =~= b);
    }
}

pub proof fn lemma_lex_asymmetric(a: Seq<char>, b: Seq<char>)
    ensures
        !(lex_lt(a, b) && lex_lt(b, a)),
{
    if lex_lt(a, b) && lex_lt(b, a) {
        lemma_lex_transitive(a, b, a);
        lemma_lex_irreflexive(a);
    }
}

/// Whether `a` comes before `b` in the lexicographic order.
pub fn lex_less(a: &[char], b: &[char]) -> (r: bool)
    ensures
        r == lex_lt(a@, b@),
{
    let mut i: usize = 0;
    assert(a@.skip(0) =~= a@ && b@.skip(0) =~= b@);
    while i < a.len() && i < b.len() && a[i] == b[i]
        invariant
            i <= a.len(),
            i <= b.len(),
            lex_lt(a@, b@) == lex_lt(a@.skip(i as int), b@.skip(i as int)),
        decreases a.len() - i,
    {
        let ghost sa = a@.skip(i as int);
        let ghost sb = b@.skip(i as int);
        assert(sa.drop_first() =~= a@.skip(i + 1));
        assert(sb.drop_first() =~= b@.skip(i + 1));
        i = i + 1;
    }
    if i == a.len() {
        i < b.len()
    } else if i == b.len() {
        false
    } else {
        a[i] < b[i]
    }
}

/// Lexicographic order on tuples of strings, component by component.
pub open spec fn tuple_lt(a: Seq<Seq<char>>, b: Seq<Seq<char>>) -> bool
    decreases a.len(),
{
    if a.len() == 0 {
        b.len() > 0
    } else if b.len() == 0 {
        false
    } else if a[0] != b[0] {
        lex_lt(a[0], b[0])
    } else {
        tuple_lt(a.drop_first(), b.drop_first())
    }
}

pub proof fn lemma_tuple_irreflexive(a: Seq<Seq<char>>)
    ensures
        !tuple_lt(a, a),
    decreases a.len(),
{
    if a.len() > 0 {
        lemma_tuple_irreflexive(a.drop_first());
    }
}

pub proof fn lemma_tuple_transitive(a: Seq<Seq<char>>, b: Seq<Seq<char>>, c: Seq<Seq<char>>)
    requires
        tuple_lt(a, b),
        tuple_lt(b, c),
    ensures
        tuple_lt(a, c),
    decreases a.len(),
{
    if a.len() > 0 && b.len() > 0 && c.len() > 0 {
        if a[0] == b[0] && b[0] == c[0] {
            lemma_tuple_transitive(a.drop_first(), b.drop_first(), c.drop_first());
        } else if a[0] == b[0] {
        } else if b[0] == c[0] {
        } else {
            lemma_lex_transitive(a[0], b[0], c[0]);
            if a[0] == c[0] {
                lemma_lex_asymmetric(a[0], b[0]);
            }
        }
    }
}

pub proof fn lemma_tuple_total(a: Seq<Seq<char>>, b: Seq<Seq<char>>)
    ensures
        a == b || tuple_lt(a, b) || tuple_lt(b, a),
    decreases a.len(),
{
    if a.len() > 0 && b.len() > 0 {
        if a[0] == b[0] {
            lemma_tuple_total(a.drop_first(), b.drop_first());
            if a.drop_first() == b.drop_first() {
                assert(a =~= seq![a[0]] + a.drop_first());
                assert(b =~= seq![b[0]] + b.drop_first());
            }
        } else {
            lemma_lex_total(a[0], b[0]);
        }
    } else if a.len() == 0 && b.len() == 0 {
        assert(a =~= b);
    }
}

/// The views of a vector of character vectors.
pub open spec fn key_view(k: Seq<Vec<char>>) -> Seq<Seq<char>> {
    k.map_values(|c: Vec<char>| c@)
}

/// Whether tuple `a` comes before tuple `b`.
pub fn tuple_less(a: &Vec<Vec<char>>, b: &Vec<Vec<char>>) -> (r: bool)
    ensures
        r == tuple_lt(key_view(a@), key_view(b@)),
{
    let mut i: usize = 0;
    assert(key_view(a@).skip(0) =~= key_view(a@) && key_view(b@).skip(0) =~= key_view(b@));
    while i < a.len() && i < b.len()
        invariant
            i <= a.len(),
            i <= b.len(),
            tuple_lt(key_view(a@), key_view(b@)) == tuple_lt(
                key_view(a@).skip(i as int),
                key_view(b@).skip(i as int),
            ),
        decreases a.len() - i,
    {
        let ghost sa = key_view(a@).skip(i as int);
        let ghost sb = key_view(b@).skip(i as int);
        assert(sa[0] == a@[i as int]@);
        assert(sb[0] == b@[i as int]@);
        if !crate::text::chars_eq(a[i].as_slice(), b[i].as_slice()) {
            return lex_less(a[i].as_slice(), b[i].as_slice());
        }
        assert(sa.drop_first() =~= key_view(a@).skip(i + 1));
        assert(sb.drop_first() =~= key_view(b@).skip(i + 1));
        i = i + 1;
    }
    i == a.len() && i < b.len()
}

/// Whether key `a` comes strictly before key `b` (in descending order when
/// `desc`).
fn strictly_first(a: &Vec<Vec<char>>, b: &Vec<Vec<char>>, desc: bool) -> (r: bool)
    ensures
        r == if desc {
            tuple_lt(key_view(b@), key_view(a@))
        } else {
            tuple_lt(key_view(a@), key_view(b@))
        },
{
    if desc {
        tuple_less(b, a)
    } else {
        tuple_less(a, b)
    }
}

/// Position `x` comes before position `y` when ordering by `keys`
/// (descending when `desc`), ties broken by position: the order of a stable
/// sort.
pub open spec fn ord_before(keys: Seq<Seq<Seq<char>>>, desc: bool, x: int, y: int) -> bool {
    if keys[x] != keys[y] {
        if desc {
            tuple_lt(keys[y], keys[x])
        } else {
            tuple_lt(keys[x], keys[y])
        }
    } else {
        x < y
    }
}

/// `p` lists every position `0..n` exactly once.
pub open spec fn is_permutation(p: Seq<usize>, n: nat) -> bool {
    &&& p.len() == n
    &&& forall|i: int| 0 <= i < p.len() ==> p[i] < n
    &&& forall|i: int, j: int| 0 <= i < j < p.len() ==> p[i] != p[j]
}

/// `p` is ordered by `ord_before`.
pub open spec fn is_sorted_by(p: Seq<usize>, keys: Seq<Seq<Seq<char>>>, desc: bool) -> bool {
    forall|i: int, j: int| 0 <= i < j < p.len() ==> ord_before(keys, desc, p[i] as int, p[j] as int)
}

proof fn lemma_ord_transitive(keys: Seq<Seq<Seq<char>>>, desc: bool, x: int, y: int, z: int)
    requires
        ord_before(keys, desc, x, y),
        ord_before(keys, desc, y, z),
    ensures
        ord_before(keys, desc, x, z),
{
    if keys[x] != keys[y] && keys[y] != keys[z] {
        if desc {
            lemma_tuple_transitive(keys[z], keys[y], keys[x]);
            if keys[x] == keys[z] {
                lemma_tuple_irreflexive(keys[x]);
            }
        } else {
            lemma_tuple_transitive(keys[x], keys[y], keys[z]);
            if keys[x] == keys[z] {
                lemma_tuple_irreflexive(keys[x]);
            }
        }
    }
}

/// The views of a vector of keys.
pub open spec fn keys_view(keys: Seq<Vec<Vec<char>>>) -> Seq<Seq<Seq<char>>> {
    keys.map_values(|k: Vec<Vec<char>>| key_view(k@))
}

/// The positions of `keys` in the order of a stable sort by key (ascending,
/// or descending when `desc`).
pub fn sorted_positions(keys: &Vec<Vec<Vec<char>>>, desc: bool) -> (p: Vec<usize>)
    ensures
        is_permutation(p@, keys.len() as nat),
        is_sorted_by(p@, keys_view(keys@), desc),
{
    let ghost ks = keys_view(keys@);
    let mut p: Vec<usize> = Vec::new();
    let mut k: usize = 0;
    while k < keys.len()
        invariant
            k <= keys.len(),
            ks == keys_view(keys@),
            is_permutation(p@, k as nat),
            is_sorted_by(p@, ks, desc),
        decreases keys.len() - k,
    {
        // find the insertion point: after every element that comes before k
        let mut pos: usize = p.len();
        while pos > 0 && strictly_first(&keys[k], &keys[p[pos - 1]], desc)
            invariant
                pos <= p.len(),
                k < keys.len(),
                ks == keys_view(keys@),
                is_permutation(p@, k as nat),
                is_sorted_by(p@, ks, desc),
                forall|j: int| 0 <= j < p.len() ==> p@[j] < k,
                forall|j: int| pos <= j < p.len() ==> ord_before(ks, desc, k as int, p@[j] as int),
            decreases pos,
        {
            proof {
                let prev = p@[pos - 1] as int;
                assert(ks[k as int] == key_view(keys@[k as int]@));
                assert(ks[prev] == key_view(keys@[prev]@));
                if ks[k as int] == ks[prev] {
                    lemma_tuple_irreflexive(ks[prev]);
                }
            }
            pos = pos - 1;
        }
        proof {
            assert(ks[k as int] == key_view(keys@[k as int]@));
            if pos > 0 {
                let prev = p@[pos - 1] as int;
                assert(ks[prev] == key_view(keys@[prev]@));
                assert(prev < k);
                lemma_tuple_total(ks[k as int], ks[prev]);
                assert(ord_before(ks, desc, prev, k as int));
                assert forall|j: int| 0 <= j < pos implies ord_before(
                    ks,
                    desc,
                    p@[j] as int,
                    k as int,
                ) by {
                    if j < pos - 1 {
                        lemma_ord_transitive(ks, desc, p@[j] as int, prev, k as int);
                    }
                }
            }
        }
        let ghost old_p = p@;
        p.insert(pos, k);
        proof {
            assert(p@ == old_p.insert(pos as int, k));
            assert forall|i: int, j: int| 0 <= i < j < p@.len() implies ord_before(
                ks,
                desc,
                p@[i] as int,
                p@[j] as int,
            ) by {
                if i < pos as int && j < pos as int {
                    assert(p@[i] == old_p[i] && p@[j] == old_p[j]);
                } else if i < pos as int && j == pos as int {
                } else if i < pos as int {
                    assert(p@[j] == old_p[j - 1]);
                    lemma_ord_transitive(ks, desc, p@[i] as int, k as int, p@[j] as int);
                } else if i == pos as int {
                    assert(p@[j] == old_p[j - 1]);
                } else {
                    assert(p@[i] == old_p[i - 1] && p@[j] == old_p[j - 1]);
                }
            }
            assert forall|i: int, j: int| 0 <= i < j < p@.len() implies p@[i] != p@[j] by {
                if i < pos as int && j < pos as int {
                } else if i < pos as int && j == pos as int {
                } else if i < pos as int {
                    assert(p@[j] == old_p[j - 1]);
                } else if i == pos as int {
                    assert(p@[j] == old_p[j - 1]);
                } else {
                    assert(p@[i] == old_p[i - 1] && p@[j] == old_p[j - 1]);
                }
            }
        }
        k = k + 1;
    }
    p
}

} // verus!
