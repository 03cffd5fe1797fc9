//! 4-connectivity over the foreground mask: adjacency, paths, reachability,
//! and the lemmas that relate them.

use vstd::prelude::*;

use crate::pixel::Image;

verus! {

/// A pixel coordinate `(x, y)`.
pub type Coord = (usize, usize);

/// Two coordinates are 4-adjacent: they differ by one step along exactly one
/// axis.
pub open spec fn adjacent(p: Coord, q: Coord) -> bool {
    ||| p.0 == q.0 && p.1 + 1 == q.1
    ||| p.0 == q.0 && q.1 + 1 == p.1
    ||| p.1 == q.1 && p.0 + 1 == q.0
    ||| p.1 == q.1 && q.0 + 1 == p.0
}

/// A walk through the image: every step lands on a foreground pixel and
/// consecutive steps are 4-adjacent.
pub open spec fn is_path(img: Image, path: Seq<Coord>) -> bool {
    &&& forall|k: int|
        0 <= k < path.len() ==> img.is_foreground(#[trigger] path[k].0 as int, path[k].1 as int)
    &&& forall|k: int| 0 <= k < path.len() - 1 ==> adjacent(#[trigger] path[k], path[k + 1])
}

/// There is a 4-connected path of foreground pixels from `p` to `q`.
pub open spec fn reachable(img: Image, p: Coord, q: Coord) -> bool {
    exists|path: Seq<Coord>|
        #[trigger] is_path(img, path) && path.len() > 0 && path[0] == p && path.last() == q
}

pub proof fn lemma_reachable_refl(img: Image, p: Coord)
    requires
        img.is_foreground(p.0 as int, p.1 as int),
    ensures
        reachable(img, p, p),
{
    let path: Seq<Coord> = seq![p];
    assert(is_path(img, path));
    assert(path[0] == p && path.last() == p);
}

/// Reachability extends along one adjacent foreground step.
pub proof fn lemma_reachable_step(img: Image, p: Coord, q: Coord, r: Coord)
    requires
        reachable(img, p, q),
        adjacent(q, r),
        img.is_foreground(r.0 as int, r.1 as int),
    ensures
        reachable(img, p, r),
{
    let path = choose|path: Seq<Coord>|
        #[trigger] is_path(img, path) && path.len() > 0 && path[0] == p && path.last() == q;
    let path2 = path.push(r);
    assert(is_path(img, path2)) by {
        assert(forall|k: int|
            0 <= k < path2.len() - 1 && k < path.len() - 1 ==> adjacent(
                #[trigger] path2[k],
                path2[k + 1],
            ));
        assert(path2[path2.len() - 2] == path.last());
        assert(adjacent(path2[path2.len() - 2], path2[path2.len() - 1]));
    }
    assert(path2[0] == p && path2.last() == r);
}

pub proof fn lemma_reachable_sym(img: Image, p: Coord, q: Coord)
    requires
        reachable(img, p, q),
    ensures
        reachable(img, q, p),
{
    let path = choose|path: Seq<Coord>|
        #[trigger] is_path(img, path) && path.len() > 0 && path[0] == p && path.last() == q;
    let n = path.len() as int;
    let rev = Seq::new(path.len(), |i: int| path[n - 1 - i]);
    assert(is_path(img, rev)) by {
        assert forall|k: int| 0 <= k < rev.len() - 1 implies adjacent(
            #[trigger] rev[k],
            rev[k + 1],
        ) by {
            assert(rev[k] == path[n - 1 - k]);
            assert(rev[k + 1] == path[n - 2 - k]);
            assert(adjacent(path[n - 2 - k], path[n - 1 - k]));
        }
    }
    assert(rev[0] == q && rev.last() == p);
}

pub proof fn lemma_reachable_trans(img: Image, p: Coord, q: Coord, r: Coord)
    requires
        reachable(img, p, q),
        reachable(img, q, r),
    ensures
        reachable(img, p, r),
{
    let path1 = choose|path: Seq<Coord>|
        #[trigger] is_path(img, path) && path.len() > 0 && path[0] == p && path.last() == q;
    let path2 = choose|path: Seq<Coord>|
        #[trigger] is_path(img, path) && path.len() > 0 && path[0] == q && path.last() == r;
    let joined = path1 + path2.subrange(1, path2.len() as int);
    let n1 = path1.len() as int;
    assert(is_path(img, joined)) by {
        assert forall|k: int| 0 <= k < joined.len() implies img.is_foreground(
            #[trigger] joined[k].0 as int,
            joined[k].1 as int,
        ) by {
            if k < n1 {
                assert(joined[k] == path1[k]);
            } else {
                assert(joined[k] == path2[k - n1 + 1]);
            }
        }
        assert forall|k: int| 0 <= k < joined.len() - 1 implies adjacent(
            #[trigger] joined[k],
            joined[k + 1],
        ) by {
            if k + 1 < n1 {
                assert(joined[k] == path1[k]);
                assert(joined[k + 1] == path1[k + 1]);
            } else if k + 1 == n1 {
                assert(joined[k] == path1[k]);
                assert(path1[k] == path1.last());
                assert(joined[k + 1] == path2[1]);
                assert(adjacent(path2[0], path2[1]));
            } else {
                assert(joined[k] == path2[k - n1 + 1]);
                assert(joined[k + 1] == path2[k + 1 - n1 + 1]);
                assert(adjacent(path2[k - n1 + 1], path2[k - n1 + 2]));
            }
        }
    }
    if path2.len() == 1 {
        assert(joined =~= path1);
        assert(joined.last() == r);
    } else {
        assert(joined.last() == path2[path2.len() - 1]);
    }
    assert(joined[0] == p && joined.last() == r);
}

/// A set of coordinates that no foreground step can leave.
pub open spec fn adjacency_closed(img: Image, s: Set<Coord>) -> bool {
    forall|p: Coord, q: Coord|
        s.contains(p) && #[trigger] adjacent(p, q) && img.is_foreground(q.0 as int, q.1 as int)
            ==> #[trigger] s.contains(q)
}

/// A path that starts inside an adjacency-closed set never leaves it.
pub proof fn lemma_path_stays(img: Image, s: Set<Coord>, path: Seq<Coord>)
    requires
        adjacency_closed(img, s),
        is_path(img, path),
        path.len() > 0,
        s.contains(path[0]),
    ensures
        forall|k: int| 0 <= k < path.len() ==> s.contains(#[trigger] path[k]),
    decreases path.len(),
{
    if path.len() > 1 {
        let prefix = path.subrange(0, path.len() - 1);
        assert(is_path(img, prefix)) by {
            assert(forall|k: int|
                0 <= k < prefix.len() ==> #[trigger] prefix[k] == path[k]);
        }
        lemma_path_stays(img, s, prefix);
        assert(s.contains(path[path.len() - 2])) by {
            assert(prefix[path.len() - 2] == path[path.len() - 2]);
        }
        assert(adjacent(path[path.len() - 2], path[path.len() - 1]));
        assert forall|k: int| 0 <= k < path.len() implies s.contains(#[trigger] path[k]) by {
            if k < path.len() - 1 {
                assert(prefix[k] == path[k]);
            }
        }
    }
}

/// If a set is adjacency-closed and contains `p`, everything reachable from
/// `p` lies inside it.
pub proof fn lemma_reachable_stays(img: Image, s: Set<Coord>, p: Coord, q: Coord)
    requires
        adjacency_closed(img, s),
        s.contains(p),
        reachable(img, p, q),
    ensures
        s.contains(q),
{
    let path = choose|path: Seq<Coord>|
        #[trigger] is_path(img, path) && path.len() > 0 && path[0] == p && path.last() == q;
    lemma_path_stays(img, s, path);
    assert(path[path.len() - 1] == q);
}

} // verus!
