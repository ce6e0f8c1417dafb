//! Paths as `std::path::Path` reads them on Unix: their components, and
//! whether one path lies within another.

use vstd::prelude::*;
use crate::text::{chars_eq, chars_of, views};

verus! {

/// A finished piece joins the named components unless it is empty or `.`.
pub open spec fn keep_piece(done: Seq<Seq<char>>, piece: Seq<char>) -> Seq<Seq<char>> {
    if piece.len() > 0 && piece != seq!['.'] {
        done.push(piece)
    } else {
        done
    }
}

/// Reading a path left to right: the named components finished so far and
/// the piece being read.
pub open spec fn part_scan(p: Seq<char>) -> (Seq<Seq<char>>, Seq<char>)
    decreases p.len(),
{
    if p.len() == 0 {
        (Seq::empty(), Seq::empty())
    } else {
        let (done, piece) = part_scan(p.drop_last());
        if p.last() == '/' {
            (keep_piece(done, piece), Seq::empty())
        } else {
            (done, piece.push(p.last()))
        }
    }
}

/// The named components of a path: the pieces between slashes, with empty
/// pieces (repeated or trailing slashes) and `.` pieces left out.
pub open spec fn named_parts(p: Seq<char>) -> Seq<Seq<char>> {
    keep_piece(part_scan(p).0, part_scan(p).1)
}

/// The components of a path as `std::path::Path` reads them on Unix: the
/// root (written `/`) or a leading `.` (written `.`), then the named
/// components.
pub open spec fn path_components(p: Seq<char>) -> Seq<Seq<char>> {
    if p.len() > 0 && p[0] == '/' {
        seq![seq!['/']] + named_parts(p)
    } else if p.len() > 0 && p[0] == '.' && (p.len() == 1 || p[1] == '/') {
        seq![seq!['.']] + named_parts(p)
    } else {
        named_parts(p)
    }
}

/// A path lies within a base directory when the base's components begin its
/// components (`Path::starts_with`).
pub open spec fn within_spec(path: Seq<char>, base: Seq<char>) -> bool {
    path_components(base).is_prefix_of(path_components(path))
}

/// The components of a path.
pub fn path_components_exec(p: &str) -> (r: Vec<Vec<char>>)
    ensures
        views(r@) == path_components(p@),
{
    let cs = chars_of(p);
    let mut done: Vec<Vec<char>> = Vec::new();
    let mut piece: Vec<char> = Vec::new();
    let mut i: usize = 0;
    let dot = chars_of(".");
    proof { reveal_strlit("."); }
    assert(cs@.take(0) =~= Seq::<char>::empty());
    while i < cs.len()
        invariant
            i <= cs@.len(),
            cs@ == p@,
            dot@ == seq!['.'],
            (views(done@), piece@) == part_scan(cs@.take(i as int)),
        decreases cs.len() - i,
    {
        let c = cs[i];
        assert(cs@.take(i + 1).drop_last() =~= cs@.take(i as int));
        assert(cs@.take(i + 1).last() == c);
        if c == '/' {
            if piece.len() > 0 && !chars_eq(piece.as_slice(), dot.as_slice()) {
                let ghost before = views(done@);
                done.push(piece);
                assert(views(done@) =~= before.push(piece@));
            }
            piece = Vec::new();
            assert(piece@ =~= Seq::<char>::empty());
        } else {
            piece.push(c);
        }
        i = i + 1;
    }
    assert(cs@.take(cs@.len() as int) =~= cs@);
    if piece.len() > 0 && !chars_eq(piece.as_slice(), dot.as_slice()) {
        let ghost before = views(done@);
        done.push(piece);
        assert(views(done@) =~= before.push(piece@));
    }
    let n = cs.len();
    if n > 0 && cs[0] == '/' {
        let root = chars_of("/");
        proof { reveal_strlit("/"); }
        assert(root@ =~= seq!['/']);
        let mut r: Vec<Vec<char>> = Vec::new();
        r.push(root);
        assert(views(r@) =~= seq![seq!['/']]);
        let ghost parts = views(done@);
        let ghost head = r@;
        r.append(&mut done);
        assert(views(r@) =~= views(head) + parts);
        r
    } else if n > 0 && cs[0] == '.' && (n == 1 || cs[1] == '/') {
        let mut r: Vec<Vec<char>> = Vec::new();
        r.push(dot);
        assert(views(r@) =~= seq![seq!['.']]);
        let ghost parts = views(done@);
        let ghost head = r@;
        r.append(&mut done);
        assert(views(r@) =~= views(head) + parts);
        r
    } else {
        done
    }
}

/// Whether `path` lies within the directory `base`, comparing components as
/// `Path::starts_with` does.
pub fn path_within(path: &str, base: &str) -> (r: bool)
    ensures
        r == within_spec(path@, base@),
{
    let pc = path_components_exec(path);
    let bc = path_components_exec(base);
    if bc.len() > pc.len() {
        return false;
    }
    let mut i: usize = 0;
    while i < bc.len()
        invariant
            i <= bc@.len() <= pc@.len(),
            views(pc@) == path_components(path@),
            views(bc@) == path_components(base@),
            forall|j: int| 0 <= j < i ==> bc@[j]@ == pc@[j]@,
        decreases bc.len() - i,
    {
        if !chars_eq(bc[i].as_slice(), pc[i].as_slice()) {
            assert(views(bc@)[i as int] == bc@[i as int]@);
            assert(views(pc@).subrange(0, bc@.len() as int)[i as int] == pc@[i as int]@);
            return false;
        }
        i = i + 1;
    }
    assert(views(bc@) =~= views(pc@).subrange(0, bc@.len() as int));
    true
}

/// The pieces that reading a path has finished are never empty.
proof fn lemma_scan_pieces_nonempty(p: Seq<char>)
    ensures
        forall|k: int| 0 <= k < part_scan(p).0.len() ==> (#[trigger] part_scan(p).0[k]).len() > 0,
    decreases p.len(),
{
    if p.len() > 0 {
        lemma_scan_pieces_nonempty(p.drop_last());
        let (done, piece) = part_scan(p.drop_last());
        if p.last() == '/' {
            let kept = keep_piece(done, piece);
            assert forall|k: int| 0 <= k < kept.len() implies (#[trigger] kept[k]).len() > 0 by {
                if k < done.len() {
                    assert(kept[k] == done[k]);
                }
            }
        }
    }
}

/// Every component of a path is non-empty.
pub proof fn lemma_components_nonempty(p: Seq<char>)
    ensures
        forall|k: int| 0 <= k < path_components(p).len() ==> (#[trigger] path_components(p)[k]).len() > 0,
{
    lemma_scan_pieces_nonempty(p);
    let parts = named_parts(p);
    assert forall|k: int| 0 <= k < parts.len() implies (#[trigger] parts[k]).len() > 0 by {
        if k < part_scan(p).0.len() {
            assert(parts[k] == part_scan(p).0[k]);
        }
    }
    let cs = path_components(p);
    assert forall|k: int| 0 <= k < cs.len() implies (#[trigger] cs[k]).len() > 0 by {
        if p.len() > 0 && p[0] == '/' {
            if k > 0 {
                assert(cs[k] == parts[k - 1]);
            }
        } else if p.len() > 0 && p[0] == '.' && (p.len() == 1 || p[1] == '/') {
            if k > 0 {
                assert(cs[k] == parts[k - 1]);
            }
        }
    }
}

} // verus!
