//! The segmentation pipeline: foreground masking, flood-fill grouping,
//! bounding boxes, containment merging, and composition of group images.

use vstd::prelude::*;

use crate::connectivity::Coord;
use crate::connectivity::adjacent;
use crate::connectivity::reachable;
use crate::connectivity::lemma_reachable_refl;
use crate::connectivity::lemma_reachable_step;
use crate::pixel::Image;
use crate::pixel::MINIMUM_PIXEL_ALPHA;
use crate::pixel::Rgba;
use crate::pixel::idx_of;
use crate::pixel::lemma_idx_bounds;
use crate::pixel::lemma_idx_injective;
use crate::pixel::transparent;
use crate::resample::bytes_of_pixels;
use crate::resample::lanczos_resized;
use crate::resample::pixels_of_bytes;
use crate::resample::resize_image;

verus! {

/// The group holds the coordinate `(x, y)`.
pub open spec fn has_coord(g: Seq<Coord>, x: int, y: int) -> bool {
    exists|j: int| 0 <= j < g.len() && #[trigger] g[j] == ((x as usize, y as usize))
}

/// The smallest x among the group's coordinates.
pub open spec fn min_x_of(g: Seq<Coord>) -> int
    decreases g.len(),
{
    if g.len() <= 1 {
        g[0].0 as int
    } else {
        let rest = min_x_of(g.drop_last());
        if (g.last().0 as int) < rest {
            g.last().0 as int
        } else {
            rest
        }
    }
}

/// The smallest y among the group's coordinates.
pub open spec fn min_y_of(g: Seq<Coord>) -> int
    decreases g.len(),
{
    if g.len() <= 1 {
        g[0].1 as int
    } else {
        let rest = min_y_of(g.drop_last());
        if (g.last().1 as int) < rest {
            g.last().1 as int
        } else {
            rest
        }
    }
}

/// The largest x among the group's coordinates.
pub open spec fn max_x_of(g: Seq<Coord>) -> int
    decreases g.len(),
{
    if g.len() <= 1 {
        g[0].0 as int
    } else {
        let rest = max_x_of(g.drop_last());
        if (g.last().0 as int) > rest {
            g.last().0 as int
        } else {
            rest
        }
    }
}

/// The largest y among the group's coordinates.
pub open spec fn max_y_of(g: Seq<Coord>) -> int
    decreases g.len(),
{
    if g.len() <= 1 {
        g[0].1 as int
    } else {
        let rest = max_y_of(g.drop_last());
        if (g.last().1 as int) > rest {
            g.last().1 as int
        } else {
            rest
        }
    }
}

/// The tightest axis-aligned rectangle around a non-empty group,
/// as `(min_x, min_y, max_x, max_y)`.
pub open spec fn bbox_of(g: Seq<Coord>) -> (int, int, int, int) {
    (min_x_of(g), min_y_of(g), max_x_of(g), max_y_of(g))
}

/// Each bound of the bounding box is both a bound and attained.
pub proof fn lemma_bbox_tight(g: Seq<Coord>)
    requires
        g.len() > 0,
    ensures
        forall|j: int|
            0 <= j < g.len() ==> min_x_of(g) <= #[trigger] g[j].0 && g[j].0 <= max_x_of(g)
                && min_y_of(g) <= g[j].1 && g[j].1 <= max_y_of(g),
        exists|j: int| 0 <= j < g.len() && #[trigger] g[j].0 == min_x_of(g),
        exists|j: int| 0 <= j < g.len() && #[trigger] g[j].1 == min_y_of(g),
        exists|j: int| 0 <= j < g.len() && #[trigger] g[j].0 == max_x_of(g),
        exists|j: int| 0 <= j < g.len() && #[trigger] g[j].1 == max_y_of(g),
    decreases g.len(),
{
    if g.len() > 1 {
        lemma_bbox_tight(g.drop_last());
        assert forall|j: int|
            0 <= j < g.len() implies min_x_of(g) <= #[trigger] g[j].0 && g[j].0 <= max_x_of(g)
            && min_y_of(g) <= g[j].1 && g[j].1 <= max_y_of(g) by {
            if j < g.len() - 1 {
                assert(g.drop_last()[j] == g[j]);
            }
        }
        let rest = g.drop_last();
        assert(g[g.len() - 1] == g.last());
        if (g.last().0 as int) < min_x_of(rest) {
            assert(g[g.len() - 1].0 == min_x_of(g));
        } else {
            let jx = choose|j: int| 0 <= j < rest.len() && #[trigger] rest[j].0 == min_x_of(rest);
            assert(g[jx] == rest[jx]);
            assert(g[jx].0 == min_x_of(g));
        }
        if (g.last().1 as int) < min_y_of(rest) {
            assert(g[g.len() - 1].1 == min_y_of(g));
        } else {
            let jy = choose|j: int| 0 <= j < rest.len() && #[trigger] rest[j].1 == min_y_of(rest);
            assert(g[jy] == rest[jy]);
            assert(g[jy].1 == min_y_of(g));
        }
        if (g.last().0 as int) > max_x_of(rest) {
            assert(g[g.len() - 1].0 == max_x_of(g));
        } else {
            let kx = choose|j: int| 0 <= j < rest.len() && #[trigger] rest[j].0 == max_x_of(rest);
            assert(g[kx] == rest[kx]);
            assert(g[kx].0 == max_x_of(g));
        }
        if (g.last().1 as int) > max_y_of(rest) {
            assert(g[g.len() - 1].1 == max_y_of(g));
        } else {
            let ky = choose|j: int| 0 <= j < rest.len() && #[trigger] rest[j].1 == max_y_of(rest);
            assert(g[ky] == rest[ky]);
            assert(g[ky].1 == max_y_of(g));
        }
    } else {
        assert(g[0] == g.last());
        assert(g[0].0 == min_x_of(g));
        assert(g[0].1 == min_y_of(g));
        assert(g[0].0 == max_x_of(g));
        assert(g[0].1 == max_y_of(g));
    }
}

/// Produce the list of foreground coordinates of `image`: exactly those whose
/// alpha channel exceeds [`MINIMUM_PIXEL_ALPHA`], in row-major order.
pub fn find_non_transparent_pixels(image: &Image) -> (r: Vec<Coord>)
    requires
        image.wf(),
    ensures
        forall|k: int|
            0 <= k < r@.len() ==> image.is_foreground(
                #[trigger] r@[k].0 as int,
                r@[k].1 as int,
            ),
        forall|p: Coord|
            image.is_foreground(p.0 as int, p.1 as int) ==> r@.contains(p),
        forall|k1: int, k2: int|
            0 <= k1 < k2 < r@.len() ==> (#[trigger] r@[k1]).1 < (#[trigger] r@[k2]).1 || (
            r@[k1].1 == r@[k2].1 && r@[k1].0 < r@[k2].0),
{
    let mut non_transparent_pixels: Vec<Coord> = Vec::new();
    let mut y: usize = 0;
    while y < image.height
        invariant
            image.wf(),
            y <= image.height,
            forall|k: int|
                0 <= k < non_transparent_pixels@.len() ==> image.is_foreground(
                    #[trigger] non_transparent_pixels@[k].0 as int,
                    non_transparent_pixels@[k].1 as int,
                ),
            forall|k: int|
                0 <= k < non_transparent_pixels@.len()
                    ==> (#[trigger] non_transparent_pixels@[k]).1 < y,
            forall|p: Coord|
                image.is_foreground(p.0 as int, p.1 as int) && p.1 < y
                    ==> non_transparent_pixels@.contains(p),
            forall|k1: int, k2: int|
                0 <= k1 < k2 < non_transparent_pixels@.len() ==> (
                #[trigger] non_transparent_pixels@[k1]).1 < (
                #[trigger] non_transparent_pixels@[k2]).1 || (non_transparent_pixels@[k1].1
                    == non_transparent_pixels@[k2].1 && non_transparent_pixels@[k1].0
                    < non_transparent_pixels@[k2].0),
        decreases image.height - y,
    {
        let mut x: usize = 0;
        while x < image.width
            invariant
                image.wf(),
                y < image.height,
                x <= image.width,
                forall|k: int|
                    0 <= k < non_transparent_pixels@.len() ==> image.is_foreground(
                        #[trigger] non_transparent_pixels@[k].0 as int,
                        non_transparent_pixels@[k].1 as int,
                    ),
                forall|k: int|
                    0 <= k < non_transparent_pixels@.len()
                        ==> (#[trigger] non_transparent_pixels@[k]).1 < y || (
                        non_transparent_pixels@[k].1 == y && non_transparent_pixels@[k].0 < x),
                forall|p: Coord|
                    image.is_foreground(p.0 as int, p.1 as int) && (p.1 < y || (p.1 == y && p.0
                        < x)) ==> non_transparent_pixels@.contains(p),
                forall|k1: int, k2: int|
                    0 <= k1 < k2 < non_transparent_pixels@.len() ==> (
                    #[trigger] non_transparent_pixels@[k1]).1 < (
                    #[trigger] non_transparent_pixels@[k2]).1 || (non_transparent_pixels@[k1].1
                        == non_transparent_pixels@[k2].1 && non_transparent_pixels@[k1].0
                        < non_transparent_pixels@[k2].0),
            decreases image.width - x,
        {
            let p = image.get_pixel(x, y);
            let ghost old_list = non_transparent_pixels@;
            if p.a > MINIMUM_PIXEL_ALPHA {
                non_transparent_pixels.push((x, y));
                proof {
                    assert forall|q: Coord| old_list.contains(q)
                        implies non_transparent_pixels@.contains(q) by {
                        let j = choose|j: int| 0 <= j < old_list.len() && old_list[j] == q;
                        assert(non_transparent_pixels@[j] == q);
                    }
                    assert(non_transparent_pixels@[non_transparent_pixels@.len() - 1] == ((x, y)));
                }
            }
            proof {
                assert forall|q: Coord|
                    image.is_foreground(q.0 as int, q.1 as int) && (q.1 < y || (q.1 == y && q.0
                        < x + 1)) implies non_transparent_pixels@.contains(q) by {
                    if q.1 == y && q.0 == x {
                        assert(q == ((x, y)));
                        assert(image.is_foreground(x as int, y as int));
                        assert(non_transparent_pixels@.contains((x, y)));
                    } else {
                        assert(old_list.contains(q));
                    }
                }
            }
            x = x + 1;
        }
        y = y + 1;
    }
    non_transparent_pixels
}

/// The tightest bounding box `(min_x, min_y, max_x, max_y)` of a group.
/// An empty group folds to the fold seeds `(usize::MAX, usize::MAX, 0, 0)`.
pub fn calculate_bounding_box(group: &Vec<Coord>) -> (r: (usize, usize, usize, usize))
    ensures
        group@.len() == 0 ==> r == (usize::MAX, usize::MAX, 0usize, 0usize),
        group@.len() > 0 ==> r.0 == min_x_of(group@) && r.1 == min_y_of(group@) && r.2
            == max_x_of(group@) && r.3 == max_y_of(group@),
{
    let mut min_x: usize = usize::MAX;
    let mut min_y: usize = usize::MAX;
    let mut max_x: usize = 0;
    let mut max_y: usize = 0;
    let mut k: usize = 0;
    while k < group.len()
        invariant
            k <= group@.len(),
            k == 0 ==> min_x == usize::MAX && min_y == usize::MAX && max_x == 0 && max_y == 0,
            k > 0 ==> min_x == min_x_of(group@.subrange(0, k as int)) && min_y == min_y_of(
                group@.subrange(0, k as int),
            ) && max_x == max_x_of(group@.subrange(0, k as int)) && max_y == max_y_of(
                group@.subrange(0, k as int),
            ),
        decreases group@.len() - k,
    {
        let (x, y) = group[k];
        proof {
            let pre = group@.subrange(0, k as int);
            let cur = group@.subrange(0, k as int + 1);
            assert(cur.drop_last() =~= pre);
            assert(cur.last() == group@[k as int]);
            if k > 0 {
                lemma_bbox_tight(pre);
            }
        }
        if x < min_x {
            min_x = x;
        }
        if y < min_y {
            min_y = y;
        }
        if x > max_x {
            max_x = x;
        }
        if y > max_y {
            max_y = y;
        }
        k = k + 1;
    }
    proof {
        if group@.len() > 0 {
            assert(group@.subrange(0, group@.len() as int) =~= group@);
        }
    }
    (min_x, min_y, max_x, max_y)
}

/// The bounding box of every group in the list, in order.
pub fn calculate_bounding_boxes(groups: &Vec<Vec<Coord>>) -> (r: Vec<
    (usize, usize, usize, usize),
>)
    ensures
        r@.len() == groups@.len(),
        forall|i: int|
            0 <= i < groups@.len() && groups@[i]@.len() == 0 ==> #[trigger] r@[i] == (
            usize::MAX,
            usize::MAX,
            0usize,
            0usize,
        ),
        forall|i: int|
            0 <= i < groups@.len() && groups@[i]@.len() > 0 ==> (#[trigger] r@[i]).0 == min_x_of(
                groups@[i]@,
            ) && r@[i].1 == min_y_of(groups@[i]@) && r@[i].2 == max_x_of(groups@[i]@) && r@[i].3
                == max_y_of(groups@[i]@),
{
    let mut r: Vec<(usize, usize, usize, usize)> = Vec::new();
    let mut i: usize = 0;
    while i < groups.len()
        invariant
            i <= groups@.len(),
            r@.len() == i,
            forall|j: int|
                0 <= j < i && groups@[j]@.len() == 0 ==> #[trigger] r@[j] == (
                usize::MAX,
                usize::MAX,
                0usize,
                0usize,
            ),
            forall|j: int|
                0 <= j < i && groups@[j]@.len() > 0 ==> (#[trigger] r@[j]).0 == min_x_of(
                    groups@[j]@,
                ) && r@[j].1 == min_y_of(groups@[j]@) && r@[j].2 == max_x_of(groups@[j]@)
                    && r@[j].3 == max_y_of(groups@[j]@),
        decreases groups@.len() - i,
    {
        let b = calculate_bounding_box(&groups[i]);
        r.push(b);
        i = i + 1;
    }
    r
}

/// Deep view of a list of groups.
pub open spec fn group_views(gs: Seq<Vec<Coord>>) -> Seq<Seq<Coord>> {
    gs.map_values(|g: Vec<Coord>| g@)
}

/// The coordinate belongs to at least one of the groups.
pub open spec fn in_some_group(gs: Seq<Seq<Coord>>, p: Coord) -> bool {
    exists|i: int| 0 <= i < gs.len() && #[trigger] gs[i].contains(p)
}

/// What the segmenter guarantees of its output: non-empty groups of
/// foreground pixels that partition the foreground set, each closed under
/// 4-adjacency and internally connected through its first pixel.
pub open spec fn valid_segmentation(img: Image, gs: Seq<Seq<Coord>>) -> bool {
    &&& forall|i: int| 0 <= i < gs.len() ==> (#[trigger] gs[i]).len() > 0
    &&& forall|i: int, j: int|
        0 <= i < gs.len() && 0 <= j < gs[i].len() ==> img.is_foreground(
            (#[trigger] gs[i][j]).0 as int,
            gs[i][j].1 as int,
        )
    &&& forall|i: int, j1: int, j2: int|
        0 <= i < gs.len() && 0 <= j1 < j2 < gs[i].len() ==> #[trigger] gs[i][j1]
            != #[trigger] gs[i][j2]
    &&& forall|i1: int, i2: int, p: Coord|
        0 <= i1 < gs.len() && 0 <= i2 < gs.len() && i1 != i2 && #[trigger] gs[i1].contains(p)
            ==> !(#[trigger] gs[i2].contains(p))
    &&& forall|p: Coord| img.is_foreground(p.0 as int, p.1 as int) ==> in_some_group(gs, p)
    &&& forall|i: int, j: int, q: Coord|
        0 <= i < gs.len() && 0 <= j < gs[i].len() && adjacent(#[trigger] gs[i][j], q)
            && img.is_foreground(q.0 as int, q.1 as int) ==> #[trigger] gs[i].contains(q)
    &&& forall|i: int, j: int|
        0 <= i < gs.len() && 0 <= j < gs[i].len() ==> reachable(
            img,
            gs[i][0],
            #[trigger] gs[i][j],
        )
}

/// The coordinate belongs to a group listed before index `i`.
pub open spec fn in_earlier_group(gs: Seq<Seq<Coord>>, i: int, p: Coord) -> bool {
    exists|i2: int| 0 <= i2 < i && #[trigger] gs[i2].contains(p)
}

/// The groups stand in discovery order: each group's first pixel is an
/// entry of the input list all of whose predecessors belong to groups
/// listed earlier. With a duplicate-free input this makes the first pixel
/// the earliest listed pixel not claimed by an earlier group, so the group
/// order follows the input order, row-major when the list comes from
/// [`find_non_transparent_pixels`].
pub open spec fn seeds_in_order(nt: Seq<Coord>, gs: Seq<Seq<Coord>>) -> bool {
    forall|i: int|
        0 <= i < gs.len() ==> exists|m: int|
            0 <= m < nt.len() && nt[m] == (#[trigger] gs[i])[0] && (forall|m2: int|
                0 <= m2 < m ==> in_earlier_group(gs, i, #[trigger] nt[m2]))
}

/// The visited flag of coordinate `(x, y)` in the flat visited grid.
pub open spec fn vis(v: Seq<bool>, w: int, x: int, y: int) -> bool {
    v[idx_of(w, x, y)]
}

/// How many cells of the visited grid are still unmarked.
pub open spec fn num_unmarked(v: Seq<bool>) -> nat
    decreases v.len(),
{
    if v.len() == 0 {
        0
    } else {
        num_unmarked(v.drop_last()) + (if v.last() {
            0nat
        } else {
            1nat
        })
    }
}

proof fn lemma_num_unmarked_update(v: Seq<bool>, i: int)
    requires
        0 <= i < v.len(),
        !v[i],
    ensures
        num_unmarked(v.update(i, true)) + 1 == num_unmarked(v),
    decreases v.len(),
{
    let u = v.update(i, true);
    if i == v.len() - 1 {
        assert(u.drop_last() =~= v.drop_last());
        assert(u.last());
        assert(!v.last());
    } else {
        lemma_num_unmarked_update(v.drop_last(), i);
        assert(u.drop_last() =~= v.drop_last().update(i, true));
        assert(u.last() == v.last());
    }
}

/// The coordinate belongs to one of the already closed groups.
pub open spec fn in_closed(gs: Seq<Vec<Coord>>, p: Coord) -> bool {
    exists|i: int| 0 <= i < gs.len() && #[trigger] gs[i]@.contains(p)
}

/// The coordinate is accounted for: in a closed group, in the group under
/// construction, or waiting on the flood-fill stack.
pub open spec fn covered(gs: Seq<Vec<Coord>>, group: Seq<Coord>, stack: Seq<Coord>, p: Coord) -> bool {
    in_closed(gs, p) || group.contains(p) || stack.contains(p)
}

/// The visited grid marks exactly the accounted-for coordinates.
pub open spec fn marks_match(
    img: Image,
    v: Seq<bool>,
    gs: Seq<Vec<Coord>>,
    group: Seq<Coord>,
    stack: Seq<Coord>,
) -> bool {
    forall|x: int, y: int|
        img.in_bounds(x, y) ==> (#[trigger] vis(v, img.width as int, x, y) <==> covered(
            gs,
            group,
            stack,
            ((x as usize, y as usize)),
        ))
}

/// The group under construction and the stack are disjoint from each other
/// and from every closed group.
pub open spec fn disjoint_parts(gs: Seq<Vec<Coord>>, group: Seq<Coord>, stack: Seq<Coord>) -> bool {
    &&& forall|p: Coord| #[trigger] group.contains(p) ==> !in_closed(gs, p) && !stack.contains(p)
    &&& forall|p: Coord| #[trigger] stack.contains(p) ==> !in_closed(gs, p)
}

/// Distinct foreground pixels, all reachable from the seed of the current
/// flood fill.
pub open spec fn members_ok(img: Image, s: Seq<Coord>, seed: Coord) -> bool {
    &&& forall|j: int|
        0 <= j < s.len() ==> img.is_foreground((#[trigger] s[j]).0 as int, s[j].1 as int)
    &&& forall|j1: int, j2: int| 0 <= j1 < j2 < s.len() ==> #[trigger] s[j1] != #[trigger] s[j2]
    &&& forall|j: int| 0 <= j < s.len() ==> reachable(img, seed, #[trigger] s[j])
}

/// Every foreground neighbor of a pixel of the group is already marked.
pub open spec fn group_closure_marked(img: Image, v: Seq<bool>, group: Seq<Coord>) -> bool {
    forall|j: int, q: Coord|
        0 <= j < group.len() && adjacent(#[trigger] group[j], q) && img.is_foreground(
            q.0 as int,
            q.1 as int,
        ) ==> #[trigger] vis(v, img.width as int, q.0 as int, q.1 as int)
}

/// The invariant of the closed groups: exactly the clauses of
/// [`valid_segmentation`], over the still-growing group list.
pub open spec fn closed_ok(img: Image, gs: Seq<Vec<Coord>>) -> bool {
    &&& forall|i: int| 0 <= i < gs.len() ==> (#[trigger] gs[i]@).len() > 0
    &&& forall|i: int, j: int|
        0 <= i < gs.len() && 0 <= j < gs[i]@.len() ==> img.is_foreground(
            (#[trigger] gs[i]@[j]).0 as int,
            gs[i]@[j].1 as int,
        )
    &&& forall|i: int, j1: int, j2: int|
        0 <= i < gs.len() && 0 <= j1 < j2 < gs[i]@.len() ==> #[trigger] gs[i]@[j1]
            != #[trigger] gs[i]@[j2]
    &&& forall|i1: int, i2: int, p: Coord|
        0 <= i1 < gs.len() && 0 <= i2 < gs.len() && i1 != i2 && #[trigger] gs[i1]@.contains(p)
            ==> !(#[trigger] gs[i2]@.contains(p))
    &&& forall|i: int, j: int, q: Coord|
        0 <= i < gs.len() && 0 <= j < gs[i]@.len() && adjacent(#[trigger] gs[i]@[j], q)
            && img.is_foreground(q.0 as int, q.1 as int) ==> #[trigger] gs[i]@.contains(q)
    &&& forall|i: int, j: int|
        0 <= i < gs.len() && 0 <= j < gs[i]@.len() ==> reachable(
            img,
            gs[i]@[0],
            #[trigger] gs[i]@[j],
        )
}

/// Inspect one in-bounds neighbor during flood fill: if it is an unvisited
/// foreground pixel, mark it visited and push it onto the stack.
fn visit_neighbor(
    pixels: &Image,
    visited: &mut Vec<bool>,
    stack: &mut Vec<Coord>,
    nx: usize,
    ny: usize,
    Ghost(gs): Ghost<Seq<Vec<Coord>>>,
    Ghost(group): Ghost<Seq<Coord>>,
    Ghost(seed): Ghost<Coord>,
)
    requires
        pixels.wf(),
        nx < pixels.width,
        ny < pixels.height,
        old(visited)@.len() == pixels.width * pixels.height,
        marks_match(*pixels, old(visited)@, gs, group, old(stack)@),
        disjoint_parts(gs, group, old(stack)@),
        members_ok(*pixels, old(stack)@, seed),
        pixels.is_foreground(nx as int, ny as int) ==> reachable(*pixels, seed, (nx, ny)),
    ensures
        final(visited)@.len() == pixels.width * pixels.height,
        marks_match(*pixels, final(visited)@, gs, group, final(stack)@),
        disjoint_parts(gs, group, final(stack)@),
        members_ok(*pixels, final(stack)@, seed),
        pixels.is_foreground(nx as int, ny as int) ==> vis(
            final(visited)@,
            pixels.width as int,
            nx as int,
            ny as int,
        ),
        forall|x: int, y: int|
            pixels.in_bounds(x, y) && vis(old(visited)@, pixels.width as int, x, y) ==> vis(
                final(visited)@,
                pixels.width as int,
                x,
                y,
            ),
        final(stack)@ == old(stack)@ || final(stack)@ == old(stack)@.push((nx, ny)),
        2 * num_unmarked(final(visited)@) + final(stack)@.len() <= 2 * num_unmarked(old(visited)@)
            + old(stack)@.len(),
{
    let w = pixels.width;
    proof {
        lemma_idx_bounds(w as int, pixels.height as int, nx as int, ny as int);
    }
    let idx: usize = ny * w + nx;
    if !visited[idx] {
        let np = pixels.get_pixel(nx, ny);
        if np.a > MINIMUM_PIXEL_ALPHA {
            let ghost old_v = visited@;
            let ghost old_s = stack@;
            visited[idx] = true;
            stack.push((nx, ny));
            proof {
                let n: Coord = (nx, ny);
                assert(pixels.is_foreground(nx as int, ny as int));
                // the neighbor was not yet accounted for
                assert(!vis(old_v, w as int, nx as int, ny as int));
                assert(!covered(gs, group, old_s, n));
                // visited flags elsewhere are untouched
                assert forall|x: int, y: int|
                    pixels.in_bounds(x, y) && !(x == nx as int && y == ny as int) implies vis(
                    visited@,
                    w as int,
                    x,
                    y,
                ) == vis(old_v, w as int, x, y) by {
                    lemma_idx_bounds(w as int, pixels.height as int, x, y);
                    lemma_idx_injective(w as int, x, y, nx as int, ny as int);
                }
                assert(vis(visited@, w as int, nx as int, ny as int));
                // stack membership changes only by the new element
                assert forall|p: Coord| old_s.contains(p) implies stack@.contains(p) by {
                    let j = choose|j: int| 0 <= j < old_s.len() && old_s[j] == p;
                    assert(stack@[j] == p);
                }
                assert(stack@[stack@.len() - 1] == n);
                assert(stack@.contains(n));
                assert forall|p: Coord| stack@.contains(p) implies old_s.contains(p) || p == n by {
                    let j = choose|j: int| 0 <= j < stack@.len() && stack@[j] == p;
                    if j < old_s.len() {
                        assert(old_s[j] == p);
                    }
                }
                assert forall|x: int, y: int| pixels.in_bounds(x, y) implies (vis(
                    visited@,
                    w as int,
                    x,
                    y,
                ) <==> covered(gs, group, stack@, ((x as usize, y as usize)))) by {
                    let p: Coord = (x as usize, y as usize);
                    if x == nx as int && y == ny as int {
                        assert(p == n);
                    } else {
                        assert(p != n);
                        assert(vis(visited@, w as int, x, y) == vis(old_v, w as int, x, y));
                    }
                }
                // the parts stay disjoint and the stack members stay
                // distinct, foreground, and reachable from the seed
                assert forall|p: Coord| #[trigger] group.contains(p) implies !in_closed(gs, p)
                    && !stack@.contains(p) by {
                    if stack@.contains(p) {
                        assert(old_s.contains(p) || p == n);
                    }
                }
                assert forall|p: Coord| #[trigger] stack@.contains(p) implies !in_closed(
                    gs,
                    p,
                ) by {
                    assert(old_s.contains(p) || p == n);
                }
                assert forall|j1: int, j2: int| 0 <= j1 < j2 < stack@.len() implies
                    #[trigger] stack@[j1] != #[trigger] stack@[j2] by {
                    if j2 == stack@.len() - 1 {
                        assert(old_s[j1] == stack@[j1]);
                        assert(old_s.contains(stack@[j1]));
                    }
                }
                assert forall|j: int| 0 <= j < stack@.len() implies pixels.is_foreground(
                    (#[trigger] stack@[j]).0 as int,
                    stack@[j].1 as int,
                ) by {
                    if j < old_s.len() {
                        assert(old_s[j] == stack@[j]);
                    } else {
                        assert(stack@[j] == n);
                    }
                }
                assert forall|j: int| 0 <= j < stack@.len() implies reachable(
                    *pixels,
                    seed,
                    #[trigger] stack@[j],
                ) by {
                    if j < old_s.len() {
                        assert(old_s[j] == stack@[j]);
                    } else {
                        assert(stack@[j] == n);
                    }
                }
                lemma_num_unmarked_update(old_v, idx_of(w as int, nx as int, ny as int));
            }
        }
    }
}

/// Flood-fill segmentation: split the foreground coordinate list into
/// 4-connected groups using an explicit stack and a visited grid.
///
/// The input must list exactly the foreground coordinates of `pixels`,
/// as [`find_non_transparent_pixels`] produces them.
pub fn segment_groups(non_transparent_pixels: &Vec<Coord>, pixels: &Image) -> (groups: Vec<
    Vec<Coord>,
>)
    requires
        pixels.wf(),
        forall|k: int|
            0 <= k < non_transparent_pixels@.len() ==> pixels.is_foreground(
                (#[trigger] non_transparent_pixels@[k]).0 as int,
                non_transparent_pixels@[k].1 as int,
            ),
        forall|p: Coord|
            pixels.is_foreground(p.0 as int, p.1 as int) ==> non_transparent_pixels@.contains(p),
    ensures
        valid_segmentation(*pixels, group_views(groups@)),
        seeds_in_order(non_transparent_pixels@, group_views(groups@)),
{
    let w = pixels.width;
    let h = pixels.height;
    let total: usize = w * h;
    let mut visited: Vec<bool> = Vec::new();
    let mut i: usize = 0;
    while i < total
        invariant
            i <= total,
            visited@.len() == i,
            forall|k: int| 0 <= k < i ==> !(#[trigger] visited@[k]),
        decreases total - i,
    {
        visited.push(false);
        i = i + 1;
    }
    proof {
        assert forall|x2: int, y2: int| pixels.in_bounds(x2, y2) implies !vis(
            visited@,
            w as int,
            x2,
            y2,
        ) by {
            lemma_idx_bounds(w as int, h as int, x2, y2);
        }
    }
    let mut groups: Vec<Vec<Coord>> = Vec::new();
    let mut s: usize = 0;
    while s < non_transparent_pixels.len()
        invariant
            pixels.wf(),
            w == pixels.width,
            h == pixels.height,
            visited@.len() == w * h,
            s <= non_transparent_pixels@.len(),
            forall|k: int|
                0 <= k < non_transparent_pixels@.len() ==> pixels.is_foreground(
                    (#[trigger] non_transparent_pixels@[k]).0 as int,
                    non_transparent_pixels@[k].1 as int,
                ),
            closed_ok(*pixels, groups@),
            marks_match(*pixels, visited@, groups@, Seq::empty(), Seq::empty()),
            seeds_in_order(non_transparent_pixels@, group_views(groups@)),
            forall|k: int|
                0 <= k < s ==> vis(
                    visited@,
                    w as int,
                    (#[trigger] non_transparent_pixels@[k]).0 as int,
                    non_transparent_pixels@[k].1 as int,
                ),
        decreases non_transparent_pixels@.len() - s,
    {
        let (x, y) = non_transparent_pixels[s];
        proof {
            assert(pixels.is_foreground(x as int, y as int));
            lemma_idx_bounds(w as int, h as int, x as int, y as int);
        }
        let idx: usize = y * w + x;
        if !visited[idx] {
            let ghost seed: Coord = (x, y);
            let ghost old_v = visited@;
            proof {
                // every input pixel listed before this seed is already in a
                // closed group, which pins this group's place in the order
                assert(seed == non_transparent_pixels@[s as int]);
                assert forall|m2: int| 0 <= m2 < s implies in_closed(
                    groups@,
                    #[trigger] non_transparent_pixels@[m2],
                ) by {
                    let p = non_transparent_pixels@[m2];
                    assert(pixels.is_foreground(p.0 as int, p.1 as int));
                    assert(vis(visited@, w as int, p.0 as int, p.1 as int));
                    assert(covered(
                        groups@,
                        Seq::empty(),
                        Seq::empty(),
                        ((p.0 as int as usize, p.1 as int as usize)),
                    ));
                    assert(((p.0 as int as usize, p.1 as int as usize)) == p);
                }
            }
            visited[idx] = true;
            let mut group: Vec<Coord> = Vec::new();
            let mut stack: Vec<Coord> = Vec::new();
            stack.push((x, y));
            proof {
                lemma_reachable_refl(*pixels, seed);
                assert(stack@ =~= seq![seed]);
                assert(stack@[0] == seed);
                assert(stack@.contains(seed));
                assert(!vis(old_v, w as int, x as int, y as int));
                assert(!covered(groups@, Seq::empty(), Seq::empty(), seed));
                assert forall|x2: int, y2: int|
                    pixels.in_bounds(x2, y2) && !(x2 == x as int && y2 == y as int) implies vis(
                    visited@,
                    w as int,
                    x2,
                    y2,
                ) == vis(old_v, w as int, x2, y2) by {
                    lemma_idx_bounds(w as int, h as int, x2, y2);
                    lemma_idx_injective(w as int, x2, y2, x as int, y as int);
                }
                assert(vis(visited@, w as int, x as int, y as int));
                assert forall|x2: int, y2: int| pixels.in_bounds(x2, y2) implies (vis(
                    visited@,
                    w as int,
                    x2,
                    y2,
                ) <==> covered(groups@, Seq::empty(), stack@, ((x2 as usize, y2 as usize)))) by {
                    let p: Coord = (x2 as usize, y2 as usize);
                    if x2 == x as int && y2 == y as int {
                        assert(p == seed);
                    } else {
                        assert(p != seed);
                        assert(stack@.contains(p) ==> p == seed);
                    }
                }
                assert forall|p: Coord| #[trigger] stack@.contains(p) implies !in_closed(
                    groups@,
                    p,
                ) by {
                    assert(p == seed);
                }
                lemma_num_unmarked_update(old_v, idx_of(w as int, x as int, y as int));
            }
            while stack.len() > 0
                invariant
                    pixels.wf(),
                    w == pixels.width,
                    h == pixels.height,
                    visited@.len() == w * h,
                    pixels.is_foreground(seed.0 as int, seed.1 as int),
                    closed_ok(*pixels, groups@),
                    marks_match(*pixels, visited@, groups@, group@, stack@),
                    disjoint_parts(groups@, group@, stack@),
                    members_ok(*pixels, group@, seed),
                    members_ok(*pixels, stack@, seed),
                    group@.len() == 0 ==> stack@ == seq![seed],
                    group@.len() > 0 ==> group@[0] == seed,
                    group@.len() + stack@.len() > 0,
                    group_closure_marked(*pixels, visited@, group@),
                decreases 2 * num_unmarked(visited@) + stack@.len(),
            {
                let ghost stack0 = stack@;
                let ghost group_before = group@;
                let popped = stack.pop();
                let pq = popped.unwrap();
                group.push(pq);
                proof {
                    assert(pq == stack0[stack0.len() - 1]);
                    assert(stack0 =~= stack@.push(pq));
                    assert(stack0.contains(pq));
                    // moving the popped element from the stack to the group
                    // keeps the union of the parts unchanged
                    assert forall|p: Coord| #[trigger] stack0.contains(p) implies p == pq
                        || stack@.contains(p) by {
                        let j = choose|j: int| 0 <= j < stack0.len() && stack0[j] == p;
                        if j < stack@.len() {
                            assert(stack@[j] == p);
                        }
                    }
                    assert forall|p: Coord| #[trigger] stack@.contains(p) implies stack0.contains(
                        p,
                    ) by {
                        let j = choose|j: int| 0 <= j < stack@.len() && stack@[j] == p;
                        assert(stack0[j] == p);
                    }
                    assert forall|p: Coord| #[trigger] group@.contains(p) implies
                        group_before.contains(p) || p == pq by {
                        let j = choose|j: int| 0 <= j < group@.len() && group@[j] == p;
                        if j < group_before.len() {
                            assert(group_before[j] == p);
                        }
                    }
                    assert forall|p: Coord| #[trigger] group_before.contains(p) implies
                        group@.contains(p) by {
                        let j = choose|j: int| 0 <= j < group_before.len() && group_before[j] == p;
                        assert(group@[j] == p);
                    }
                    assert(group@[group@.len() - 1] == pq);
                    assert(group@.contains(pq));
                    assert forall|x2: int, y2: int| pixels.in_bounds(x2, y2) implies (vis(
                        visited@,
                        w as int,
                        x2,
                        y2,
                    ) <==> covered(groups@, group@, stack@, ((x2 as usize, y2 as usize)))) by {
                        let p: Coord = (x2 as usize, y2 as usize);
                        assert(covered(groups@, group_before, stack0, p) == covered(
                            groups@,
                            group@,
                            stack@,
                            p,
                        ));
                    }
                    // the group stays free of duplicates and disjoint from
                    // the closed groups and the rest of the stack
                    assert forall|p: Coord| #[trigger] group@.contains(p) implies !in_closed(
                        groups@,
                        p,
                    ) && !stack@.contains(p) by {
                        if p == pq {
                            assert(stack0.contains(pq));
                        } else {
                            assert(group_before.contains(p));
                        }
                        if stack@.contains(p) {
                            assert(stack0.contains(p));
                            if p == pq {
                                let j = choose|j: int| 0 <= j < stack@.len() && stack@[j] == p;
                                assert(stack0[j] == pq);
                                assert(stack0[stack0.len() - 1] == pq);
                                assert(j < stack0.len() - 1);
                                assert(false);
                            }
                        }
                    }
                    assert forall|j1: int, j2: int| 0 <= j1 < j2 < group@.len() implies
                        #[trigger] group@[j1] != #[trigger] group@[j2] by {
                        if j2 == group@.len() - 1 {
                            assert(group_before.contains(group@[j1]));
                            assert(!stack0.contains(group@[j1]));
                        }
                    }
                    if group_before.len() == 0 {
                        assert(stack0 == seq![seed]);
                        assert(pq == seed);
                        assert(group@[0] == seed);
                    }
                }
                let (px, py) = pq;
                proof {
                    assert(group@.contains(pq));
                    assert(reachable(*pixels, seed, pq));
                    if px + 1 < w {
                        let n: Coord = ((px + 1) as usize, py);
                        assert(adjacent(pq, n));
                        if pixels.is_foreground(n.0 as int, n.1 as int) {
                            lemma_reachable_step(*pixels, seed, pq, n);
                        }
                    }
                }
                if px + 1 < w {
                    visit_neighbor(
                        pixels,
                        &mut visited,
                        &mut stack,
                        px + 1,
                        py,
                        Ghost(groups@),
                        Ghost(group@),
                        Ghost(seed),
                    );
                }
                proof {
                    if py + 1 < h {
                        let n: Coord = (px, (py + 1) as usize);
                        assert(adjacent(pq, n));
                        if pixels.is_foreground(n.0 as int, n.1 as int) {
                            lemma_reachable_step(*pixels, seed, pq, n);
                        }
                    }
                }
                if py + 1 < h {
                    visit_neighbor(
                        pixels,
                        &mut visited,
                        &mut stack,
                        px,
                        py + 1,
                        Ghost(groups@),
                        Ghost(group@),
                        Ghost(seed),
                    );
                }
                proof {
                    if px > 0 {
                        let n: Coord = ((px - 1) as usize, py);
                        assert(adjacent(n, pq));
                        assert(adjacent(pq, n));
                        if pixels.is_foreground(n.0 as int, n.1 as int) {
                            lemma_reachable_step(*pixels, seed, pq, n);
                        }
                    }
                }
                if px > 0 {
                    visit_neighbor(
                        pixels,
                        &mut visited,
                        &mut stack,
                        px - 1,
                        py,
                        Ghost(groups@),
                        Ghost(group@),
                        Ghost(seed),
                    );
                }
                proof {
                    if py > 0 {
                        let n: Coord = (px, (py - 1) as usize);
                        assert(adjacent(n, pq));
                        assert(adjacent(pq, n));
                        if pixels.is_foreground(n.0 as int, n.1 as int) {
                            lemma_reachable_step(*pixels, seed, pq, n);
                        }
                    }
                }
                if py > 0 {
                    visit_neighbor(
                        pixels,
                        &mut visited,
                        &mut stack,
                        px,
                        py - 1,
                        Ghost(groups@),
                        Ghost(group@),
                        Ghost(seed),
                    );
                }
                proof {
                    // every foreground neighbor of the newly added pixel is
                    // now marked, so the group closure invariant is restored
                    assert forall|j: int, q: Coord|
                        0 <= j < group@.len() && adjacent(#[trigger] group@[j], q)
                            && pixels.is_foreground(q.0 as int, q.1 as int) implies #[trigger] vis(
                        visited@,
                        w as int,
                        q.0 as int,
                        q.1 as int,
                    ) by {
                        let gp = group@[j];
                        if j < group@.len() - 1 {
                            assert(group_before[j] == gp);
                        } else {
                            assert(gp == pq);
                            // q is one of the four neighbors of pq
                            assert(q.0 < pixels.width && q.1 < pixels.height);
                            if gp.0 == q.0 && gp.1 + 1 == q.1 {
                                assert(q == ((px, (py + 1) as usize)));
                            } else if gp.0 == q.0 && q.1 + 1 == gp.1 {
                                assert(q == ((px, (py - 1) as usize)));
                            } else if gp.1 == q.1 && gp.0 + 1 == q.0 {
                                assert(q == (((px + 1) as usize, py)));
                            } else {
                                assert(gp.1 == q.1 && q.0 + 1 == gp.0);
                                assert(q == (((px - 1) as usize, py)));
                            }
                        }
                    }
                }
            }
            proof {
                // the finished group is adjacency-closed: a foreground
                // neighbor of a member is marked, hence in a closed group or
                // in this group; the closed groups are themselves closed and
                // disjoint from this group, which rules them out
                assert forall|j: int, q: Coord|
                    0 <= j < group@.len() && adjacent(#[trigger] group@[j], q)
                        && pixels.is_foreground(q.0 as int, q.1 as int) implies
                    #[trigger] group@.contains(q) by {
                    assert(vis(visited@, w as int, q.0 as int, q.1 as int));
                    assert(covered(groups@, group@, stack@, ((q.0 as int as usize, q.1 as int as usize))));
                    let qc: Coord = (q.0 as int as usize, q.1 as int as usize);
                    assert(qc == q);
                    if in_closed(groups@, q) {
                        let i2 = choose|i2: int| 0 <= i2 < groups@.len() && #[trigger] groups@[i2]@.contains(q);
                        let j2 = choose|j2: int| 0 <= j2 < groups@[i2]@.len() && groups@[i2]@[j2] == q;
                        assert(groups@[i2]@[j2] == q);
                        assert(adjacent(q, group@[j]));
                        assert(groups@[i2]@.contains(group@[j]));
                        assert(in_closed(groups@, group@[j]));
                        assert(group@.contains(group@[j]));
                        assert(false);
                    }
                }
                assert(group@.len() > 0);
            }
            let ghost closed_before = groups@;
            let ghost group_view = group@;
            groups.push(group);
            proof {
                assert(groups@[groups@.len() - 1]@ == group_view);
                assert forall|i: int| 0 <= i < groups@.len() implies (#[trigger] groups@[i]@).len()
                    > 0 by {
                    if i < closed_before.len() {
                        assert(groups@[i] == closed_before[i]);
                    }
                }
                assert forall|i: int| 0 <= i < closed_before.len() implies groups@[i]
                    == closed_before[i] by {}
                // disjointness of the new group from the old ones
                assert forall|i1: int, i2: int, p: Coord|
                    0 <= i1 < groups@.len() && 0 <= i2 < groups@.len() && i1 != i2
                        && #[trigger] groups@[i1]@.contains(p) implies !(
                    #[trigger] groups@[i2]@.contains(p)) by {
                    if i1 == groups@.len() - 1 {
                        assert(group_view.contains(p));
                        assert(!in_closed(closed_before, p));
                        if groups@[i2]@.contains(p) {
                            assert(closed_before[i2]@.contains(p));
                            assert(in_closed(closed_before, p));
                        }
                    } else if i2 == groups@.len() - 1 {
                        if groups@[i2]@.contains(p) {
                            assert(group_view.contains(p));
                            assert(!in_closed(closed_before, p));
                            assert(closed_before[i1]@.contains(p));
                            assert(in_closed(closed_before, p));
                        }
                    }
                }
                // the marks now match with the new group closed
                assert forall|x2: int, y2: int| pixels.in_bounds(x2, y2) implies (vis(
                    visited@,
                    w as int,
                    x2,
                    y2,
                ) <==> covered(groups@, Seq::empty(), Seq::empty(), ((x2 as usize, y2 as usize)))) by {
                    let p: Coord = (x2 as usize, y2 as usize);
                    assert(covered(closed_before, group_view, stack@, p) == vis(
                        visited@,
                        w as int,
                        x2,
                        y2,
                    ));
                    if in_closed(groups@, p) {
                        let i2 = choose|i2: int| 0 <= i2 < groups@.len() && #[trigger] groups@[i2]@.contains(p);
                        if i2 < closed_before.len() {
                            assert(closed_before[i2]@.contains(p));
                        } else {
                            assert(group_view.contains(p));
                        }
                    }
                    if in_closed(closed_before, p) {
                        let i2 = choose|i2: int| 0 <= i2 < closed_before.len() && #[trigger] closed_before[i2]@.contains(p);
                        assert(groups@[i2]@.contains(p));
                        assert(in_closed(groups@, p));
                    }
                    if group_view.contains(p) {
                        assert(groups@[groups@.len() - 1]@.contains(p));
                        assert(in_closed(groups@, p));
                    }
                }
                // the seed pixel of this group is marked now
                assert(vis(visited@, w as int, x as int, y as int));
                // the new group keeps the discovery order: its first pixel
                // is the list entry at the current position, and every
                // earlier entry lies in a group closed before it
                let gv_new = group_views(groups@);
                let gv_old = group_views(closed_before);
                let nt = non_transparent_pixels@;
                assert(gv_new.len() == closed_before.len() + 1);
                assert forall|i: int| 0 <= i < gv_new.len() implies exists|m: int|
                    0 <= m < nt.len() && nt[m] == (#[trigger] gv_new[i])[0] && (forall|m2: int|
                        0 <= m2 < m ==> in_earlier_group(gv_new, i, #[trigger] nt[m2])) by {
                    if i < closed_before.len() {
                        assert(gv_old[i] == closed_before[i]@);
                        assert(gv_new[i] == closed_before[i]@);
                        let m = choose|m: int|
                            0 <= m < nt.len() && nt[m] == (#[trigger] gv_old[i])[0] && (forall|
                                m2: int,
                            |
                                0 <= m2 < m ==> in_earlier_group(gv_old, i, #[trigger] nt[m2]));
                        assert forall|m2: int| 0 <= m2 < m implies in_earlier_group(
                            gv_new,
                            i,
                            #[trigger] nt[m2],
                        ) by {
                            let i2 = choose|i2: int|
                                0 <= i2 < i && #[trigger] gv_old[i2].contains(nt[m2]);
                            assert(gv_new[i2].contains(nt[m2]));
                        }
                        assert(0 <= m < nt.len() && nt[m] == gv_new[i][0] && (forall|m2: int|
                            0 <= m2 < m ==> in_earlier_group(gv_new, i, #[trigger] nt[m2])));
                    } else {
                        assert(i == closed_before.len());
                        assert(gv_new[i] == group_view);
                        assert(group_view[0] == seed);
                        assert(nt[s as int] == seed);
                        assert forall|m2: int| 0 <= m2 < s implies in_earlier_group(
                            gv_new,
                            i,
                            #[trigger] nt[m2],
                        ) by {
                            assert(in_closed(closed_before, nt[m2]));
                            let i2 = choose|i2: int|
                                0 <= i2 < closed_before.len()
                                    && #[trigger] closed_before[i2]@.contains(nt[m2]);
                            assert(gv_new[i2].contains(nt[m2]));
                        }
                        assert(0 <= s < nt.len() && nt[s as int] == gv_new[i][0] && (forall|
                            m2: int,
                        |
                            0 <= m2 < s ==> in_earlier_group(gv_new, i, #[trigger] nt[m2])));
                    }
                }
                assert(seeds_in_order(nt, gv_new));
            }
        }
        proof {
            assert forall|k: int| 0 <= k < s + 1 implies vis(
                visited@,
                w as int,
                (#[trigger] non_transparent_pixels@[k]).0 as int,
                non_transparent_pixels@[k].1 as int,
            ) by {
                let p = non_transparent_pixels@[k];
                assert(pixels.is_foreground(p.0 as int, p.1 as int));
            }
        }
        s = s + 1;
    }
    proof {
        let gv = group_views(groups@);
        assert(gv.len() == groups@.len());
        assert forall|i: int| 0 <= i < gv.len() implies gv[i] == groups@[i]@ by {}
        // every foreground pixel was listed, so it is marked, so it is in a
        // closed group
        assert forall|p: Coord|
            pixels.is_foreground(p.0 as int, p.1 as int) implies in_some_group(gv, p) by {
            assert(non_transparent_pixels@.contains(p));
            let k = choose|k: int|
                0 <= k < non_transparent_pixels@.len() && non_transparent_pixels@[k] == p;
            assert(vis(visited@, w as int, p.0 as int, p.1 as int));
            assert(covered(groups@, Seq::empty(), Seq::empty(), ((p.0 as int as usize, p.1 as int as usize))));
            let pc: Coord = (p.0 as int as usize, p.1 as int as usize);
            assert(pc == p);
            assert(in_closed(groups@, p));
            let i2 = choose|i2: int| 0 <= i2 < groups@.len() && #[trigger] groups@[i2]@.contains(p);
            assert(gv[i2].contains(p));
        }
        assert forall|i1: int, i2: int, p: Coord|
            0 <= i1 < gv.len() && 0 <= i2 < gv.len() && i1 != i2 && #[trigger] gv[i1].contains(p)
                implies !(#[trigger] gv[i2].contains(p)) by {
            assert(groups@[i1]@.contains(p));
            if gv[i2].contains(p) {
                assert(groups@[i2]@.contains(p));
            }
        }
        assert forall|i: int, j: int, q: Coord|
            0 <= i < gv.len() && 0 <= j < gv[i].len() && adjacent(#[trigger] gv[i][j], q)
                && pixels.is_foreground(q.0 as int, q.1 as int) implies #[trigger] gv[i].contains(
            q,
        ) by {
            assert(groups@[i]@[j] == gv[i][j]);
            assert(groups@[i]@.contains(q));
        }
    }
    groups
}

/// `inner` lies inside `outer`: containment of bounding boxes, inclusive on
/// every edge.
pub open spec fn box_within(inner: (int, int, int, int), outer: (int, int, int, int)) -> bool {
    inner.0 >= outer.0 && inner.1 >= outer.1 && inner.2 <= outer.2 && inner.3 <= outer.3
}

/// Index of the first already-kept group whose bounding box contains the
/// candidate's, or `-1` if none does.
pub open spec fn first_absorber(acc: Seq<Seq<Coord>>, g: Seq<Coord>) -> int
    decreases acc.len(),
{
    if acc.len() == 0 {
        -1
    } else if box_within(bbox_of(g), bbox_of(acc[0])) {
        0
    } else {
        let r = first_absorber(acc.drop_first(), g);
        if r < 0 {
            -1
        } else {
            r + 1
        }
    }
}

/// One step of the merge pass: absorb the candidate into the first kept
/// group whose box contains its box, or keep it as a new group.
pub open spec fn merge_step(acc: Seq<Seq<Coord>>, g: Seq<Coord>) -> Seq<Seq<Coord>> {
    let i = first_absorber(acc, g);
    if i < 0 {
        acc.push(g)
    } else {
        acc.update(i, acc[i] + g)
    }
}

/// The single left-to-right containment merge pass over a group list.
pub open spec fn merge_pass(gs: Seq<Seq<Coord>>) -> Seq<Seq<Coord>>
    decreases gs.len(),
{
    if gs.len() == 0 {
        Seq::empty()
    } else {
        merge_step(merge_pass(gs.drop_last()), gs.last())
    }
}

pub proof fn lemma_first_absorber_found(acc: Seq<Seq<Coord>>, g: Seq<Coord>, i: int)
    requires
        0 <= i < acc.len(),
        box_within(bbox_of(g), bbox_of(acc[i])),
        forall|j: int| 0 <= j < i ==> !box_within(bbox_of(g), bbox_of(#[trigger] acc[j])),
    ensures
        first_absorber(acc, g) == i,
    decreases acc.len(),
{
    if i == 0 {
    } else {
        assert(!box_within(bbox_of(g), bbox_of(acc[0])));
        let rest = acc.drop_first();
        assert(rest[i - 1] == acc[i]);
        assert forall|j: int| 0 <= j < i - 1 implies !box_within(
            bbox_of(g),
            bbox_of(#[trigger] rest[j]),
        ) by {
            assert(rest[j] == acc[j + 1]);
        }
        lemma_first_absorber_found(rest, g, i - 1);
    }
}

pub proof fn lemma_first_absorber_none(acc: Seq<Seq<Coord>>, g: Seq<Coord>)
    requires
        forall|j: int| 0 <= j < acc.len() ==> !box_within(bbox_of(g), bbox_of(#[trigger] acc[j])),
    ensures
        first_absorber(acc, g) == -1,
    decreases acc.len(),
{
    if acc.len() > 0 {
        let rest = acc.drop_first();
        assert forall|j: int| 0 <= j < rest.len() implies !box_within(
            bbox_of(g),
            bbox_of(#[trigger] rest[j]),
        ) by {
            assert(rest[j] == acc[j + 1]);
        }
        lemma_first_absorber_none(rest, g);
    }
}

/// An exact copy of a coordinate list.
fn copy_coords(src: &Vec<Coord>) -> (r: Vec<Coord>)
    ensures
        r@ == src@,
{
    let mut r: Vec<Coord> = Vec::new();
    let mut k: usize = 0;
    while k < src.len()
        invariant
            k <= src@.len(),
            r@ == src@.subrange(0, k as int),
        decreases src@.len() - k,
    {
        r.push(src[k]);
        proof {
            assert(r@ =~= src@.subrange(0, k as int + 1));
        }
        k = k + 1;
    }
    proof {
        assert(src@.subrange(0, src@.len() as int) =~= src@);
    }
    r
}

/// Fold the groups left to right, absorbing each group whose bounding box is
/// contained in the box of an earlier kept group into that group.
pub fn merge_contained_groups(groups: Vec<Vec<Coord>>) -> (merged: Vec<Vec<Coord>>)
    requires
        forall|i: int| 0 <= i < groups@.len() ==> (#[trigger] groups@[i]@).len() > 0,
    ensures
        group_views(merged@) == merge_pass(group_views(groups@)),
        forall|i: int| 0 <= i < merged@.len() ==> (#[trigger] merged@[i]@).len() > 0,
{
    let ghost all_views = group_views(groups@);
    let mut merged: Vec<Vec<Coord>> = Vec::new();
    let mut gi: usize = 0;
    while gi < groups.len()
        invariant
            gi <= groups@.len(),
            all_views == group_views(groups@),
            forall|i: int| 0 <= i < groups@.len() ==> (#[trigger] groups@[i]@).len() > 0,
            group_views(merged@) == merge_pass(all_views.subrange(0, gi as int)),
            forall|i: int| 0 <= i < merged@.len() ==> (#[trigger] merged@[i]@).len() > 0,
        decreases groups@.len() - gi,
    {
        let group = copy_coords(&groups[gi]);
        let ghost acc_views = group_views(merged@);
        let mut j: usize = 0;
        let mut found: bool = false;
        let mut fi: usize = 0;
        while j < merged.len()
            invariant_except_break
                !found,
                j <= merged@.len(),
                group@ == groups@[gi as int]@,
                group@.len() > 0,
                acc_views == group_views(merged@),
                forall|i: int| 0 <= i < merged@.len() ==> (#[trigger] merged@[i]@).len() > 0,
                forall|k: int|
                    0 <= k < j ==> !box_within(
                        bbox_of(group@),
                        bbox_of(#[trigger] merged@[k]@),
                    ),
            ensures
                group@ == groups@[gi as int]@,
                acc_views == group_views(merged@),
                found ==> fi < merged@.len() && box_within(
                    bbox_of(group@),
                    bbox_of(merged@[fi as int]@),
                ) && forall|k: int|
                    0 <= k < fi ==> !box_within(
                        bbox_of(group@),
                        bbox_of(#[trigger] merged@[k]@),
                    ),
                !found ==> forall|k: int|
                    0 <= k < merged@.len() ==> !box_within(
                        bbox_of(group@),
                        bbox_of(#[trigger] merged@[k]@),
                    ),
            decreases merged@.len() - j,
        {
            let (min_x, min_y, max_x, max_y) = calculate_bounding_box(&group);
            let (min_x2, min_y2, max_x2, max_y2) = calculate_bounding_box(&merged[j]);
            if min_x >= min_x2 && min_y >= min_y2 && max_x <= max_x2 && max_y <= max_y2 {
                found = true;
                fi = j;
                break ;
            }
            j = j + 1;
        }
        let ghost gview = group@;
        if found {
            let ghost before = merged@;
            let mut absorbed = merged.remove(fi);
            let ghost absorbed0 = absorbed@;
            let mut k: usize = 0;
            while k < group.len()
                invariant
                    k <= group@.len(),
                    absorbed@ == absorbed0 + group@.subrange(0, k as int),
                decreases group@.len() - k,
            {
                absorbed.push(group[k]);
                proof {
                    assert(absorbed@ =~= absorbed0 + group@.subrange(0, k as int + 1));
                }
                k = k + 1;
            }
            proof {
                assert(group@.subrange(0, group@.len() as int) =~= group@);
                assert(absorbed@ == absorbed0 + group@);
            }
            merged.insert(fi, absorbed);
            proof {
                lemma_first_absorber_found(acc_views, gview, fi as int);
                assert forall|i: int| 0 <= i < merged@.len() implies (
                #[trigger] merged@[i]@).len() > 0 by {
                    if i < fi {
                        assert(merged@[i] == before[i]);
                    } else if i > fi {
                        assert(merged@[i] == before[i]);
                    }
                }
                assert(group_views(merged@) =~= merge_step(acc_views, gview)) by {
                    assert forall|i: int| 0 <= i < merged@.len() implies group_views(merged@)[i]
                        == merge_step(acc_views, gview)[i] by {
                        if i < fi {
                            assert(merged@[i] == before[i]);
                        } else if i > fi {
                            assert(merged@[i] == before[i]);
                        } else {
                            assert(merged@[fi as int]@ == absorbed0 + gview);
                        }
                    }
                }
            }
        } else {
            merged.push(group);
            proof {
                lemma_first_absorber_none(acc_views, gview);
                assert forall|i: int| 0 <= i < merged@.len() implies (
                #[trigger] merged@[i]@).len() > 0 by {}
                assert(group_views(merged@) =~= merge_step(acc_views, gview));
            }
        }
        proof {
            assert(all_views.subrange(0, gi as int + 1).drop_last() =~= all_views.subrange(
                0,
                gi as int,
            ));
            assert(all_views.subrange(0, gi as int + 1).last() == all_views[gi as int]);
            assert(all_views[gi as int] == groups@[gi as int]@);
            assert(group_views(merged@) == merge_pass(all_views.subrange(0, gi as int + 1)));
        }
        gi = gi + 1;
    }
    proof {
        assert(all_views.subrange(0, groups@.len() as int) =~= all_views);
    }
    merged
}

/// Flood-fill the foreground coordinates into 4-connected groups, then merge
/// groups whose bounding box lies inside an earlier group's bounding box.
///
/// The input must list exactly the foreground coordinates of `pixels`, as
/// [`find_non_transparent_pixels`] produces them.
pub fn find_connected_groups(non_transparent_pixels: &Vec<Coord>, pixels: &Image) -> (merged_groups: Vec<Vec<Coord>>)
    requires
        pixels.wf(),
        forall|k: int|
            0 <= k < non_transparent_pixels@.len() ==> pixels.is_foreground(
                (#[trigger] non_transparent_pixels@[k]).0 as int,
                non_transparent_pixels@[k].1 as int,
            ),
        forall|p: Coord|
            pixels.is_foreground(p.0 as int, p.1 as int) ==> non_transparent_pixels@.contains(p),
    ensures
        exists|gs: Seq<Seq<Coord>>|
            #[trigger] valid_segmentation(*pixels, gs) && seeds_in_order(
                non_transparent_pixels@,
                gs,
            ) && group_views(merged_groups@) == merge_pass(gs),
        forall|i: int| 0 <= i < merged_groups@.len() ==> (#[trigger] merged_groups@[i]@).len() > 0,
{
    let groups = segment_groups(non_transparent_pixels, pixels);
    let ghost gs = group_views(groups@);
    proof {
        assert forall|i: int| 0 <= i < groups@.len() implies (#[trigger] groups@[i]@).len()
            > 0 by {
            assert(gs[i] == groups@[i]@);
        }
    }
    let merged_groups = merge_contained_groups(groups);
    merged_groups
}

/// Edge length of the normalized square output canvas.
pub const TARGET_SIZE: usize = 448;

/// The smaller of `v` and `s`.
pub open spec fn clamped(v: int, s: int) -> int {
    if v < s {
        v
    } else {
        s
    }
}

/// The pixel at `(cx, cy)` of the tight crop of a group: the source pixel if
/// the group holds the corresponding source coordinate, transparent
/// otherwise.
pub open spec fn crop_pixel(img: Image, g: Seq<Coord>, cx: int, cy: int) -> Rgba {
    if has_coord(g, min_x_of(g) + cx, min_y_of(g) + cy) {
        img.pixel(min_x_of(g) + cx, min_y_of(g) + cy)
    } else {
        transparent()
    }
}

/// The row-major pixel buffer of the tight crop of a group.
pub open spec fn crop_seq(img: Image, g: Seq<Coord>) -> Seq<Rgba> {
    let gw = max_x_of(g) - min_x_of(g) + 1;
    let gh = max_y_of(g) - min_y_of(g) + 1;
    Seq::new((gw * gh) as nat, |k: int| crop_pixel(img, g, k % gw, k / gw))
}

/// What composing one group into its normalized canvas returns: a
/// `TARGET_SIZE` square that either is the Lanczos downscale of the tight
/// crop (when the crop exceeds the target in both dimensions) or holds the
/// crop pasted unscaled, horizontally centered and bottom-aligned, on a
/// transparent background.
pub open spec fn group_image_spec(img: Image, g: Seq<Coord>, out: Image) -> bool {
    let gw = max_x_of(g) - min_x_of(g) + 1;
    let gh = max_y_of(g) - min_y_of(g) + 1;
    let s = TARGET_SIZE as int;
    &&& out.wf()
    &&& out.width == TARGET_SIZE
    &&& out.height == TARGET_SIZE
    &&& if gw > s && gh > s {
        out.data@ == pixels_of_bytes(
            lanczos_resized(bytes_of_pixels(crop_seq(img, g)), gw, gh, s, s),
        )
    } else {
        let mw = clamped(gw, s);
        let mh = clamped(gh, s);
        let sx = (s - mw) / 2;
        let sy = s - mh;
        forall|tx: int, ty: int|
            0 <= tx < s && 0 <= ty < s ==> out.pixel(tx, ty) == (if sx <= tx < sx + mw && sy <= ty
                < sy + mh {
                crop_pixel(img, g, tx - sx, ty - sy)
            } else {
                transparent()
            })
    }
}

proof fn lemma_mul_le(a: int, b: int, c: int, d: int)
    by (nonlinear_arith)
    requires
        0 <= a <= b,
        0 <= c <= d,
    ensures
        a * c <= b * d,
{
}

proof fn lemma_div_bound(k: int, d: int, m: int)
    by (nonlinear_arith)
    requires
        0 <= k < d * m,
        0 < d,
    ensures
        0 <= k / d < m,
{
}

/// Build the tight crop of a group: a `gw * gh` image holding the group's
/// pixels shifted by the bounding box origin, transparent elsewhere.
fn build_crop(image: &Image, group: &[Coord]) -> (crop: Image)
    requires
        image.wf(),
        group@.len() > 0,
        forall|j: int|
            0 <= j < group@.len() ==> (#[trigger] group@[j]).0 < image.width && group@[j].1
                < image.height,
    ensures
        crop.wf(),
        crop.width == max_x_of(group@) - min_x_of(group@) + 1,
        crop.height == max_y_of(group@) - min_y_of(group@) + 1,
        forall|cx: int, cy: int|
            0 <= cx < crop.width && 0 <= cy < crop.height ==> crop.pixel(cx, cy) == crop_pixel(
                *image,
                group@,
                cx,
                cy,
            ),
{
    let mut min_x: usize = image.width;
    let mut min_y: usize = image.height;
    let mut max_x: usize = 0;
    let mut max_y: usize = 0;
    let mut k: usize = 0;
    while k < group.len()
        invariant
            k <= group@.len(),
            forall|j: int|
                0 <= j < group@.len() ==> (#[trigger] group@[j]).0 < image.width && group@[j].1
                    < image.height,
            k == 0 ==> min_x == image.width && min_y == image.height && max_x == 0 && max_y == 0,
            k > 0 ==> min_x == min_x_of(group@.subrange(0, k as int)) && min_y == min_y_of(
                group@.subrange(0, k as int),
            ) && max_x == max_x_of(group@.subrange(0, k as int)) && max_y == max_y_of(
                group@.subrange(0, k as int),
            ),
        decreases group@.len() - k,
    {
        let (x, y) = group[k];
        proof {
            let pre = group@.subrange(0, k as int);
            let cur = group@.subrange(0, k as int + 1);
            assert(cur.drop_last() =~= pre);
            assert(cur.last() == group@[k as int]);
            if k > 0 {
                lemma_bbox_tight(pre);
                assert(forall|j: int| 0 <= j < pre.len() ==> #[trigger] pre[j] == group@[j]);
            }
        }
        if x < min_x {
            min_x = x;
        }
        if y < min_y {
            min_y = y;
        }
        if x > max_x {
            max_x = x;
        }
        if y > max_y {
            max_y = y;
        }
        k = k + 1;
    }
    proof {
        assert(group@.subrange(0, group@.len() as int) =~= group@);
        lemma_bbox_tight(group@);
    }
    let group_width = max_x - min_x + 1;
    let group_height = max_y - min_y + 1;
    proof {
        lemma_mul_le(
            group_width as int,
            image.width as int,
            group_height as int,
            image.height as int,
        );
    }
    let mut crop = Image::new(group_width, group_height);
    let mut j: usize = 0;
    while j < group.len()
        invariant
            j <= group@.len(),
            image.wf(),
            group@.len() > 0,
            forall|jj: int|
                0 <= jj < group@.len() ==> (#[trigger] group@[jj]).0 < image.width && group@[jj].1
                    < image.height,
            min_x == min_x_of(group@),
            min_y == min_y_of(group@),
            max_x == max_x_of(group@),
            max_y == max_y_of(group@),
            group_width == max_x - min_x + 1,
            group_height == max_y - min_y + 1,
            crop.wf(),
            crop.width == group_width,
            crop.height == group_height,
            forall|cx: int, cy: int|
                0 <= cx < crop.width && 0 <= cy < crop.height ==> crop.pixel(cx, cy) == (if
                has_coord(group@.subrange(0, j as int), min_x + cx, min_y + cy) {
                    image.pixel(min_x + cx, min_y + cy)
                } else {
                    transparent()
                }),
        decreases group@.len() - j,
    {
        let (x, y) = group[j];
        proof {
            lemma_bbox_tight(group@);
            assert(min_x <= x && x <= max_x && min_y <= y && y <= max_y);
        }
        let p = image.get_pixel(x, y);
        let ghost crop0 = crop;
        crop.put_pixel(x - min_x, y - min_y, p);
        proof {
            let pre = group@.subrange(0, j as int);
            let cur = group@.subrange(0, j as int + 1);
            assert(cur.drop_last() =~= pre);
            assert(cur[j as int] == group@[j as int]);
            assert forall|cx: int, cy: int|
                0 <= cx < crop.width && 0 <= cy < crop.height implies crop.pixel(cx, cy) == (if
            has_coord(cur, min_x + cx, min_y + cy) {
                image.pixel(min_x + cx, min_y + cy)
            } else {
                transparent()
            }) by {
                if cx == x - min_x && cy == y - min_y {
                    assert(cur[j as int] == ((x, y)));
                    assert(min_x + cx == x && min_y + cy == y);
                    assert(has_coord(cur, min_x + cx, min_y + cy));
                    assert(crop.pixel(cx, cy) == p);
                } else {
                    assert(crop.pixel(cx, cy) == crop0.pixel(cx, cy));
                    if has_coord(cur, min_x + cx, min_y + cy) {
                        let w = choose|w: int|
                            0 <= w < cur.len() && #[trigger] cur[w] == ((
                            (min_x + cx) as usize,
                            (min_y + cy) as usize,
                            ));
                        if w == j as int {
                            assert(cur[w] == ((x, y)));
                            assert(false);
                        } else {
                            assert(pre[w] == cur[w]);
                            assert(has_coord(pre, min_x + cx, min_y + cy));
                        }
                    }
                    if has_coord(pre, min_x + cx, min_y + cy) {
                        let w = choose|w: int|
                            0 <= w < pre.len() && #[trigger] pre[w] == ((
                            (min_x + cx) as usize,
                            (min_y + cy) as usize,
                            ));
                        assert(cur[w] == pre[w]);
                        assert(has_coord(cur, min_x + cx, min_y + cy));
                    }
                }
            }
        }
        j = j + 1;
    }
    proof {
        assert(group@.subrange(0, group@.len() as int) =~= group@);
    }
    crop
}

/// Compose one group into its normalized `TARGET_SIZE` square canvas:
/// crop tightly, then downscale (both dimensions over the target) or paste
/// unscaled, horizontally centered and bottom-aligned.
pub fn make_group_image(image: &Image, group: &[Coord]) -> (out: Image)
    requires
        image.wf(),
        group@.len() > 0,
        image.width <= u32::MAX,
        image.height <= u32::MAX,
        4 * (image.width * image.height) <= usize::MAX,
        forall|j: int|
            0 <= j < group@.len() ==> (#[trigger] group@[j]).0 < image.width && group@[j].1
                < image.height,
    ensures
        group_image_spec(*image, group@, out),
{
    let crop = build_crop(image, group);
    let group_width = crop.width;
    let group_height = crop.height;
    proof {
        lemma_bbox_tight(group@);
        let jx = choose|j: int| 0 <= j < group@.len() && #[trigger] group@[j].0 == max_x_of(
            group@,
        );
        assert(max_x_of(group@) < image.width);
        let jy = choose|j: int| 0 <= j < group@.len() && #[trigger] group@[j].1 == max_y_of(
            group@,
        );
        assert(max_y_of(group@) < image.height);
        let jm = choose|j: int| 0 <= j < group@.len() && #[trigger] group@[j].0 == min_x_of(
            group@,
        );
        assert(min_x_of(group@) >= 0);
        let jn = choose|j: int| 0 <= j < group@.len() && #[trigger] group@[j].1 == min_y_of(
            group@,
        );
        assert(min_y_of(group@) >= 0);
        assert(1 <= group_width <= image.width);
        assert(1 <= group_height <= image.height);
    }
    if group_width > TARGET_SIZE && group_height > TARGET_SIZE {
        proof {
            lemma_mul_le(
                group_width as int,
                image.width as int,
                group_height as int,
                image.height as int,
            );
            assert forall|k: int| 0 <= k < crop.data@.len() implies crop.data@[k] == crop_seq(
                *image,
                group@,
            )[k] by {
                lemma_div_bound(k, group_width as int, group_height as int);
                vstd::arithmetic::div_mod::lemma_fundamental_div_mod(k, group_width as int);
                let cx = k % (group_width as int);
                let cy = k / (group_width as int);
                assert(crop.data@[k] == crop.pixel(cx, cy));
            }
            assert(crop.data@ =~= crop_seq(*image, group@));
        }
        let out = resize_image(&crop, TARGET_SIZE, TARGET_SIZE);
        out
    } else {
        let mut resized = Image::new(TARGET_SIZE, TARGET_SIZE);
        let min_width = if group_width < TARGET_SIZE {
            group_width
        } else {
            TARGET_SIZE
        };
        let min_height = if group_height < TARGET_SIZE {
            group_height
        } else {
            TARGET_SIZE
        };
        let start_x = (TARGET_SIZE - min_width) / 2;
        let start_y = TARGET_SIZE - min_height;
        let mut x: usize = 0;
        while x < min_width
            invariant
                min_width == clamped(crop.width as int, TARGET_SIZE as int),
                min_height == clamped(crop.height as int, TARGET_SIZE as int),
                start_x == (TARGET_SIZE - min_width) / 2,
                start_y == TARGET_SIZE - min_height,
                x <= min_width,
                crop.wf(),
                crop.width == max_x_of(group@) - min_x_of(group@) + 1,
                crop.height == max_y_of(group@) - min_y_of(group@) + 1,
                forall|cx: int, cy: int|
                    0 <= cx < crop.width && 0 <= cy < crop.height ==> crop.pixel(cx, cy)
                        == crop_pixel(*image, group@, cx, cy),
                resized.wf(),
                resized.width == TARGET_SIZE,
                resized.height == TARGET_SIZE,
                forall|tx: int, ty: int|
                    0 <= tx < TARGET_SIZE && 0 <= ty < TARGET_SIZE ==> resized.pixel(tx, ty) == (
                    if start_x <= tx < start_x + x && start_y <= ty < start_y + min_height {
                        crop_pixel(*image, group@, tx - start_x, ty - start_y)
                    } else {
                        transparent()
                    }),
            decreases min_width - x,
        {
            let mut y: usize = 0;
            while y < min_height
                invariant
                    min_width == clamped(crop.width as int, TARGET_SIZE as int),
                    min_height == clamped(crop.height as int, TARGET_SIZE as int),
                    start_x == (TARGET_SIZE - min_width) / 2,
                    start_y == TARGET_SIZE - min_height,
                    x < min_width,
                    y <= min_height,
                    crop.wf(),
                    crop.width == max_x_of(group@) - min_x_of(group@) + 1,
                    crop.height == max_y_of(group@) - min_y_of(group@) + 1,
                    forall|cx: int, cy: int|
                        0 <= cx < crop.width && 0 <= cy < crop.height ==> crop.pixel(cx, cy)
                            == crop_pixel(*image, group@, cx, cy),
                    resized.wf(),
                    resized.width == TARGET_SIZE,
                    resized.height == TARGET_SIZE,
                    forall|tx: int, ty: int|
                        0 <= tx < TARGET_SIZE && 0 <= ty < TARGET_SIZE ==> resized.pixel(tx, ty)
                            == (if (start_x <= tx < start_x + x && start_y <= ty < start_y
                            + min_height) || (tx == start_x + x && start_y <= ty < start_y + y) {
                            crop_pixel(*image, group@, tx - start_x, ty - start_y)
                        } else {
                            transparent()
                        }),
                decreases min_height - y,
            {
                let target_x = start_x + x;
                let target_y = start_y + y;
                let cp = crop.get_pixel(x, y);
                resized.put_pixel(target_x, target_y, cp);
                y = y + 1;
            }
            x = x + 1;
        }
        resized
    }
}

/// The six derivative sizes, in order: the emote sizes then the badge sizes.
pub open spec fn derivative_size(k: int) -> int {
    if k == 0 {
        28
    } else if k == 1 {
        56
    } else if k == 2 {
        112
    } else if k == 3 {
        18
    } else if k == 4 {
        36
    } else {
        72
    }
}

/// Resize a normalized canvas to every derivative target size, emote sizes
/// first, badge sizes after.
pub fn make_resized_images(pixels: &Image) -> (r: Vec<Image>)
    requires
        pixels.wf(),
        1 <= pixels.width <= u32::MAX,
        1 <= pixels.height <= u32::MAX,
        4 * (pixels.width * pixels.height) <= usize::MAX,
    ensures
        r@.len() == 6,
        forall|k: int|
            0 <= k < 6 ==> (#[trigger] r@[k]).wf() && r@[k].width == derivative_size(k)
                && r@[k].height == derivative_size(k) && r@[k].data@ == pixels_of_bytes(
                lanczos_resized(
                    bytes_of_pixels(pixels.data@),
                    pixels.width as int,
                    pixels.height as int,
                    derivative_size(k),
                    derivative_size(k),
                ),
            ),
{
    let mut r: Vec<Image> = Vec::new();
    r.push(resize_image(pixels, 28, 28));
    r.push(resize_image(pixels, 56, 56));
    r.push(resize_image(pixels, 112, 112));
    r.push(resize_image(pixels, 18, 18));
    r.push(resize_image(pixels, 36, 36));
    r.push(resize_image(pixels, 72, 72));
    proof {
        assert(r@.len() == 6);
        assert forall|k: int| 0 <= k < 6 implies (#[trigger] r@[k]).wf() && r@[k].width
            == derivative_size(k) && r@[k].height == derivative_size(k) && r@[k].data@
            == pixels_of_bytes(
            lanczos_resized(
                bytes_of_pixels(pixels.data@),
                pixels.width as int,
                pixels.height as int,
                derivative_size(k),
                derivative_size(k),
            ),
        ) by {
            if k == 0 {
            } else if k == 1 {
            } else if k == 2 {
            } else if k == 3 {
            } else if k == 4 {
            } else {
            }
        }
    }
    r
}

} // verus!
