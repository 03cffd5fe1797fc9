//! The global laws of the pipeline, each proved from the public contracts:
//! segmentation partitions the foreground, groups coincide with 4-connected
//! reachability, the containment merge is idempotent on its own output, and
//! an exactly target-sized crop is composed without padding.

use vstd::prelude::*;

use crate::connectivity::Coord;
use crate::connectivity::adjacent;
use crate::connectivity::adjacency_closed;
use crate::connectivity::lemma_reachable_stays;
use crate::connectivity::lemma_reachable_sym;
use crate::connectivity::lemma_reachable_trans;
use crate::connectivity::reachable;
use crate::image_processing::TARGET_SIZE;
use crate::image_processing::bbox_of;
use crate::image_processing::box_within;
use crate::image_processing::crop_pixel;
use crate::image_processing::first_absorber;
use crate::image_processing::group_image_spec;
use crate::image_processing::in_some_group;
use crate::image_processing::lemma_first_absorber_none;
use crate::image_processing::max_x_of;
use crate::image_processing::max_y_of;
use crate::image_processing::merge_pass;
use crate::image_processing::merge_step;
use crate::image_processing::min_x_of;
use crate::image_processing::min_y_of;
use crate::image_processing::valid_segmentation;
use crate::pixel::Image;

verus! {

/// The groups of a valid segmentation cover exactly the foreground set, and
/// no coordinate lies in two groups.
pub proof fn lemma_segmentation_partitions(img: Image, gs: Seq<Seq<Coord>>)
    requires
        valid_segmentation(img, gs),
    ensures
        forall|p: Coord| in_some_group(gs, p) <==> img.is_foreground(p.0 as int, p.1 as int),
        forall|i1: int, i2: int, p: Coord|
            0 <= i1 < gs.len() && 0 <= i2 < gs.len() && i1 != i2 && #[trigger] gs[i1].contains(p)
                ==> !(#[trigger] gs[i2].contains(p)),
{
    assert forall|p: Coord| in_some_group(gs, p) implies img.is_foreground(
        p.0 as int,
        p.1 as int,
    ) by {
        let i = choose|i: int| 0 <= i < gs.len() && #[trigger] gs[i].contains(p);
        let j = choose|j: int| 0 <= j < gs[i].len() && gs[i][j] == p;
        assert(img.is_foreground(gs[i][j].0 as int, gs[i][j].1 as int));
    }
}

/// Any two pixels of one segmentation group are joined by a 4-connected
/// path of foreground pixels.
pub proof fn lemma_same_group_connected(img: Image, gs: Seq<Seq<Coord>>, i: int, j1: int, j2: int)
    requires
        valid_segmentation(img, gs),
        0 <= i < gs.len(),
        0 <= j1 < gs[i].len(),
        0 <= j2 < gs[i].len(),
    ensures
        reachable(img, gs[i][j1], gs[i][j2]),
{
    assert(reachable(img, gs[i][0], gs[i][j1]));
    assert(reachable(img, gs[i][0], gs[i][j2]));
    lemma_reachable_sym(img, gs[i][0], gs[i][j1]);
    lemma_reachable_trans(img, gs[i][j1], gs[i][0], gs[i][j2]);
}

/// No 4-connected foreground path joins pixels of two different
/// segmentation groups.
pub proof fn lemma_distinct_groups_disconnected(
    img: Image,
    gs: Seq<Seq<Coord>>,
    i1: int,
    j1: int,
    i2: int,
    j2: int,
)
    requires
        valid_segmentation(img, gs),
        0 <= i1 < gs.len(),
        0 <= j1 < gs[i1].len(),
        0 <= i2 < gs.len(),
        0 <= j2 < gs[i2].len(),
        i1 != i2,
    ensures
        !reachable(img, gs[i1][j1], gs[i2][j2]),
{
    if reachable(img, gs[i1][j1], gs[i2][j2]) {
        let s = Set::new(|p: Coord| gs[i1].contains(p));
        assert(adjacency_closed(img, s)) by {
            assert forall|p: Coord, q: Coord|
                s.contains(p) && #[trigger] adjacent(p, q) && img.is_foreground(
                    q.0 as int,
                    q.1 as int,
                ) implies #[trigger] s.contains(q) by {
                let j = choose|j: int| 0 <= j < gs[i1].len() && gs[i1][j] == p;
                assert(adjacent(gs[i1][j], q));
                assert(gs[i1].contains(q));
            }
        }
        assert(s.contains(gs[i1][j1]));
        lemma_reachable_stays(img, s, gs[i1][j1], gs[i2][j2]);
        assert(gs[i1].contains(gs[i2][j2]));
        assert(gs[i2].contains(gs[i2][j2]));
        assert(false);
    }
}

/// Concatenation folds the bounding box bounds of the two parts.
proof fn lemma_bbox_concat(a: Seq<Coord>, b: Seq<Coord>)
    requires
        a.len() > 0,
        b.len() > 0,
    ensures
        min_x_of(a + b) == (if min_x_of(b) < min_x_of(a) { min_x_of(b) } else { min_x_of(a) }),
        min_y_of(a + b) == (if min_y_of(b) < min_y_of(a) { min_y_of(b) } else { min_y_of(a) }),
        max_x_of(a + b) == (if max_x_of(b) > max_x_of(a) { max_x_of(b) } else { max_x_of(a) }),
        max_y_of(a + b) == (if max_y_of(b) > max_y_of(a) { max_y_of(b) } else { max_y_of(a) }),
    decreases b.len(),
{
    if b.len() == 1 {
        assert((a + b).drop_last() =~= a);
        assert((a + b).last() == b[0]);
        assert(b[0] == b.last());
    } else {
        lemma_bbox_concat(a, b.drop_last());
        assert((a + b).drop_last() =~= a + b.drop_last());
        assert((a + b).last() == b.last());
    }
}

/// Absorbing a contained group leaves the absorber's bounding box as it
/// was.
proof fn lemma_absorb_keeps_box(a: Seq<Coord>, g: Seq<Coord>)
    requires
        a.len() > 0,
        g.len() > 0,
        box_within(bbox_of(g), bbox_of(a)),
    ensures
        bbox_of(a + g) == bbox_of(a),
{
    lemma_bbox_concat(a, g);
}

proof fn lemma_first_absorber_spec(acc: Seq<Seq<Coord>>, g: Seq<Coord>)
    ensures
        first_absorber(acc, g) == -1 ==> (forall|j: int|
            0 <= j < acc.len() ==> !box_within(bbox_of(g), bbox_of(#[trigger] acc[j]))),
        first_absorber(acc, g) != -1 ==> 0 <= first_absorber(acc, g) < acc.len() && box_within(
            bbox_of(g),
            bbox_of(acc[first_absorber(acc, g)]),
        ),
    decreases acc.len(),
{
    if acc.len() > 0 {
        let rest = acc.drop_first();
        lemma_first_absorber_spec(rest, g);
        if !box_within(bbox_of(g), bbox_of(acc[0])) {
            if first_absorber(acc, g) == -1 {
                assert forall|j: int| 0 <= j < acc.len() implies !box_within(
                    bbox_of(g),
                    bbox_of(#[trigger] acc[j]),
                ) by {
                    if j > 0 {
                        assert(rest[j - 1] == acc[j]);
                    }
                }
            } else {
                let r = first_absorber(rest, g);
                assert(rest[r] == acc[r + 1]);
            }
        }
    }
}

/// No kept group's bounding box is contained in an earlier kept group's
/// bounding box.
pub open spec fn no_later_containment(gs: Seq<Seq<Coord>>) -> bool {
    forall|i: int, j: int|
        0 <= i < j < gs.len() ==> !box_within(
            bbox_of(#[trigger] gs[j]),
            bbox_of(#[trigger] gs[i]),
        )
}

/// The merge pass keeps groups non-empty and leaves no group whose box is
/// contained in an earlier kept group's box.
pub proof fn lemma_merge_pass_no_containment(gs: Seq<Seq<Coord>>)
    requires
        forall|i: int| 0 <= i < gs.len() ==> (#[trigger] gs[i]).len() > 0,
    ensures
        forall|i: int| 0 <= i < merge_pass(gs).len() ==> (#[trigger] merge_pass(gs)[i]).len() > 0,
        no_later_containment(merge_pass(gs)),
    decreases gs.len(),
{
    if gs.len() > 0 {
        assert forall|i: int| 0 <= i < gs.drop_last().len() implies (
        #[trigger] gs.drop_last()[i]).len() > 0 by {
            assert(gs.drop_last()[i] == gs[i]);
        }
        lemma_merge_pass_no_containment(gs.drop_last());
        let acc = merge_pass(gs.drop_last());
        let g = gs.last();
        assert(g.len() > 0);
        let out = merge_pass(gs);
        assert(out == merge_step(acc, g));
        lemma_first_absorber_spec(acc, g);
        let fa = first_absorber(acc, g);
        if fa == -1 {
            assert(out == acc.push(g));
            assert forall|i: int| 0 <= i < out.len() implies (#[trigger] out[i]).len() > 0 by {
                if i < acc.len() {
                    assert(out[i] == acc[i]);
                }
            }
            assert forall|i: int, j: int| 0 <= i < j < out.len() implies !box_within(
                bbox_of(#[trigger] out[j]),
                bbox_of(#[trigger] out[i]),
            ) by {
                if j < acc.len() {
                    assert(out[i] == acc[i] && out[j] == acc[j]);
                } else {
                    assert(out[j] == g && out[i] == acc[i]);
                }
            }
        } else {
            assert(out == acc.update(fa, acc[fa] + g));
            lemma_absorb_keeps_box(acc[fa], g);
            assert forall|i: int| 0 <= i < out.len() implies (#[trigger] out[i]).len() > 0 by {
                if i != fa {
                    assert(out[i] == acc[i]);
                } else {
                    assert(out[fa] == acc[fa] + g);
                }
            }
            assert forall|i: int, j: int| 0 <= i < j < out.len() implies !box_within(
                bbox_of(#[trigger] out[j]),
                bbox_of(#[trigger] out[i]),
            ) by {
                assert(bbox_of(out[fa]) == bbox_of(acc[fa]));
                if i != fa {
                    assert(out[i] == acc[i]);
                }
                if j != fa {
                    assert(out[j] == acc[j]);
                }
            }
        }
    }
}

/// On a list with no later containment the merge pass changes nothing.
pub proof fn lemma_merge_pass_identity(gs: Seq<Seq<Coord>>)
    requires
        forall|i: int| 0 <= i < gs.len() ==> (#[trigger] gs[i]).len() > 0,
        no_later_containment(gs),
    ensures
        merge_pass(gs) == gs,
    decreases gs.len(),
{
    if gs.len() > 0 {
        let pre = gs.drop_last();
        assert forall|i: int| 0 <= i < pre.len() implies (#[trigger] pre[i]).len() > 0 by {
            assert(pre[i] == gs[i]);
        }
        assert forall|i: int, j: int| 0 <= i < j < pre.len() implies !box_within(
            bbox_of(#[trigger] pre[j]),
            bbox_of(#[trigger] pre[i]),
        ) by {
            assert(pre[i] == gs[i] && pre[j] == gs[j]);
        }
        lemma_merge_pass_identity(pre);
        let g = gs.last();
        assert forall|j: int| 0 <= j < pre.len() implies !box_within(
            bbox_of(g),
            bbox_of(#[trigger] pre[j]),
        ) by {
            assert(pre[j] == gs[j]);
            assert(g == gs[gs.len() - 1]);
        }
        lemma_first_absorber_none(pre, g);
        assert(merge_pass(gs) == pre.push(g));
        assert(pre.push(g) =~= gs);
    }
}

/// Re-running the merge pass on its own output absorbs nothing further.
pub proof fn lemma_merge_idempotent(gs: Seq<Seq<Coord>>)
    requires
        forall|i: int| 0 <= i < gs.len() ==> (#[trigger] gs[i]).len() > 0,
    ensures
        merge_pass(merge_pass(gs)) == merge_pass(gs),
{
    lemma_merge_pass_no_containment(gs);
    lemma_merge_pass_identity(merge_pass(gs));
}

/// Merging moves pixels between groups but neither loses nor invents any:
/// a coordinate lies in some merged group exactly when it lay in some
/// original group.
pub proof fn lemma_merge_preserves_membership(gs: Seq<Seq<Coord>>, p: Coord)
    ensures
        in_some_group(merge_pass(gs), p) <==> in_some_group(gs, p),
    decreases gs.len(),
{
    if gs.len() > 0 {
        let pre = gs.drop_last();
        lemma_merge_preserves_membership(pre, p);
        let acc = merge_pass(pre);
        let g = gs.last();
        let out = merge_pass(gs);
        assert(out == merge_step(acc, g));
        lemma_first_absorber_spec(acc, g);
        let fa = first_absorber(acc, g);
        assert forall|i: int| 0 <= i < pre.len() implies #[trigger] pre[i] == gs[i] by {}
        if in_some_group(gs, p) {
            let i = choose|i: int| 0 <= i < gs.len() && #[trigger] gs[i].contains(p);
            if i < pre.len() {
                assert(pre[i].contains(p));
                assert(in_some_group(pre, p));
                let i2 = choose|i2: int| 0 <= i2 < acc.len() && #[trigger] acc[i2].contains(p);
                if fa == -1 {
                    assert(out[i2] == acc[i2]);
                } else if i2 == fa {
                    let j = choose|j: int| 0 <= j < acc[fa].len() && acc[fa][j] == p;
                    assert(out[fa][j] == p);
                    assert(out[fa].contains(p));
                } else {
                    assert(out[i2] == acc[i2]);
                }
                assert(in_some_group(out, p));
            } else {
                assert(g.contains(p));
                let j = choose|j: int| 0 <= j < g.len() && g[j] == p;
                if fa == -1 {
                    assert(out[acc.len() as int] == g);
                } else {
                    assert(out[fa] == acc[fa] + g);
                    assert(out[fa][acc[fa].len() + j] == p);
                    assert(out[fa].contains(p));
                }
                assert(in_some_group(out, p));
            }
        }
        if in_some_group(out, p) {
            let i = choose|i: int| 0 <= i < out.len() && #[trigger] out[i].contains(p);
            if fa == -1 {
                if i < acc.len() {
                    assert(acc[i].contains(p));
                    assert(in_some_group(acc, p));
                } else {
                    assert(out[i] == g);
                    assert(gs[gs.len() - 1].contains(p));
                    assert(in_some_group(gs, p));
                }
            } else {
                if i == fa {
                    let j = choose|j: int| 0 <= j < out[fa].len() && out[fa][j] == p;
                    if j < acc[fa].len() {
                        assert(acc[fa][j] == p);
                        assert(acc[fa].contains(p));
                        assert(in_some_group(acc, p));
                    } else {
                        assert(g[j - acc[fa].len()] == p);
                        assert(g.contains(p));
                        assert(gs[gs.len() - 1].contains(p));
                        assert(in_some_group(gs, p));
                    }
                } else {
                    assert(out[i] == acc[i]);
                    assert(in_some_group(acc, p));
                }
            }
            if in_some_group(acc, p) {
                assert(in_some_group(pre, p));
                let i3 = choose|i3: int| 0 <= i3 < pre.len() && #[trigger] pre[i3].contains(p);
                assert(gs[i3].contains(p));
                assert(in_some_group(gs, p));
            }
        }
    }
}

/// No coordinate lies in two of the groups.
pub open spec fn groups_disjoint(gs: Seq<Seq<Coord>>) -> bool {
    forall|i1: int, i2: int, p: Coord|
        0 <= i1 < gs.len() && 0 <= i2 < gs.len() && i1 != i2 && #[trigger] gs[i1].contains(p)
            ==> !(#[trigger] gs[i2].contains(p))
}

/// No group lists a coordinate twice.
pub open spec fn groups_duplicate_free(gs: Seq<Seq<Coord>>) -> bool {
    forall|i: int, j1: int, j2: int|
        0 <= i < gs.len() && 0 <= j1 < j2 < gs[i].len() ==> #[trigger] gs[i][j1]
            != #[trigger] gs[i][j2]
}

/// The merge pass preserves the partition: groups that were pairwise
/// disjoint and duplicate-free stay so, since each absorbed group is
/// appended whole to a group it shares no pixel with.
pub proof fn lemma_merge_keeps_partition(gs: Seq<Seq<Coord>>)
    requires
        groups_disjoint(gs),
        groups_duplicate_free(gs),
    ensures
        groups_disjoint(merge_pass(gs)),
        groups_duplicate_free(merge_pass(gs)),
    decreases gs.len(),
{
    if gs.len() > 0 {
        let pre = gs.drop_last();
        let g = gs.last();
        assert forall|i: int| 0 <= i < pre.len() implies #[trigger] pre[i] == gs[i] by {}
        assert(groups_disjoint(pre)) by {
            assert forall|i1: int, i2: int, p: Coord|
                0 <= i1 < pre.len() && 0 <= i2 < pre.len() && i1 != i2
                    && #[trigger] pre[i1].contains(p) implies !(#[trigger] pre[i2].contains(
                p,
            )) by {
                assert(gs[i1].contains(p));
                if pre[i2].contains(p) {
                    assert(gs[i2].contains(p));
                }
            }
        }
        lemma_merge_keeps_partition(pre);
        let acc = merge_pass(pre);
        let out = merge_pass(gs);
        assert(out == merge_step(acc, g));
        // the candidate shares no pixel with any already-kept group
        assert forall|i: int, p: Coord|
            0 <= i < acc.len() && #[trigger] acc[i].contains(p) implies !g.contains(p) by {
            assert(in_some_group(acc, p));
            lemma_merge_preserves_membership(pre, p);
            let i2 = choose|i2: int| 0 <= i2 < pre.len() && #[trigger] pre[i2].contains(p);
            assert(gs[i2].contains(p));
            if g.contains(p) {
                assert(gs[gs.len() - 1].contains(p));
                assert(false);
            }
        }
        lemma_first_absorber_spec(acc, g);
        let fa = first_absorber(acc, g);
        if fa == -1 {
            assert(out == acc.push(g));
            assert forall|i1: int, i2: int, p: Coord|
                0 <= i1 < out.len() && 0 <= i2 < out.len() && i1 != i2
                    && #[trigger] out[i1].contains(p) implies !(#[trigger] out[i2].contains(
                p,
            )) by {
                if i1 < acc.len() && i2 < acc.len() {
                    assert(out[i1] == acc[i1] && out[i2] == acc[i2]);
                } else if i1 < acc.len() {
                    assert(out[i1] == acc[i1] && out[i2] == g);
                } else {
                    assert(out[i1] == g && out[i2] == acc[i2]);
                    if out[i2].contains(p) {
                        assert(!g.contains(p));
                    }
                }
            }
            assert forall|i: int, j1: int, j2: int|
                0 <= i < out.len() && 0 <= j1 < j2 < out[i].len() implies #[trigger] out[i][j1]
                != #[trigger] out[i][j2] by {
                if i < acc.len() {
                    assert(out[i] == acc[i]);
                } else {
                    assert(out[i] == g);
                    assert(gs[gs.len() - 1][j1] != gs[gs.len() - 1][j2]);
                }
            }
        } else {
            assert(out == acc.update(fa, acc[fa] + g));
            let joined = acc[fa] + g;
            assert forall|p: Coord| #[trigger] joined.contains(p) implies acc[fa].contains(p)
                || g.contains(p) by {
                let j = choose|j: int| 0 <= j < joined.len() && joined[j] == p;
                if j < acc[fa].len() {
                    assert(acc[fa][j] == p);
                } else {
                    assert(g[j - acc[fa].len()] == p);
                }
            }
            assert forall|i1: int, i2: int, p: Coord|
                0 <= i1 < out.len() && 0 <= i2 < out.len() && i1 != i2
                    && #[trigger] out[i1].contains(p) implies !(#[trigger] out[i2].contains(
                p,
            )) by {
                if i1 != fa && i2 != fa {
                    assert(out[i1] == acc[i1] && out[i2] == acc[i2]);
                } else if i1 == fa {
                    assert(out[i2] == acc[i2]);
                    if out[i2].contains(p) {
                        assert(joined.contains(p));
                        assert(acc[fa].contains(p) || g.contains(p));
                        assert(!acc[fa].contains(p));
                        assert(!g.contains(p));
                        assert(false);
                    }
                } else {
                    assert(out[i1] == acc[i1]);
                    if out[i2].contains(p) {
                        assert(acc[fa].contains(p) || g.contains(p));
                        assert(false);
                    }
                }
            }
            assert forall|i: int, j1: int, j2: int|
                0 <= i < out.len() && 0 <= j1 < j2 < out[i].len() implies #[trigger] out[i][j1]
                != #[trigger] out[i][j2] by {
                if i != fa {
                    assert(out[i] == acc[i]);
                } else {
                    assert(out[fa] == joined);
                    let n1 = acc[fa].len() as int;
                    if j2 < n1 {
                        assert(joined[j1] == acc[fa][j1] && joined[j2] == acc[fa][j2]);
                    } else if j1 >= n1 {
                        assert(joined[j1] == g[j1 - n1] && joined[j2] == g[j2 - n1]);
                        assert(gs[gs.len() - 1][j1 - n1] != gs[gs.len() - 1][j2 - n1]);
                    } else {
                        assert(joined[j1] == acc[fa][j1]);
                        assert(joined[j2] == g[j2 - n1]);
                        assert(acc[fa].contains(joined[j1]));
                        if joined[j1] == joined[j2] {
                            assert(g.contains(joined[j1]));
                            assert(false);
                        }
                    }
                }
            }
        }
    }
}

/// Every foreground neighbor of a pixel of a group lies in that group.
pub open spec fn groups_adjacency_closed(img: Image, gs: Seq<Seq<Coord>>) -> bool {
    forall|i: int, j: int, q: Coord|
        0 <= i < gs.len() && 0 <= j < gs[i].len() && adjacent(#[trigger] gs[i][j], q)
            && img.is_foreground(q.0 as int, q.1 as int) ==> #[trigger] gs[i].contains(q)
}

/// The merge pass preserves adjacency closure: each merged group is a union
/// of closed groups, and a union of closed sets is closed.
pub proof fn lemma_merge_keeps_closure(img: Image, gs: Seq<Seq<Coord>>)
    requires
        groups_adjacency_closed(img, gs),
    ensures
        groups_adjacency_closed(img, merge_pass(gs)),
    decreases gs.len(),
{
    if gs.len() > 0 {
        let pre = gs.drop_last();
        let g = gs.last();
        assert forall|i: int| 0 <= i < pre.len() implies #[trigger] pre[i] == gs[i] by {}
        lemma_merge_keeps_closure(img, pre);
        let acc = merge_pass(pre);
        let out = merge_pass(gs);
        assert(out == merge_step(acc, g));
        lemma_first_absorber_spec(acc, g);
        let fa = first_absorber(acc, g);
        assert forall|i: int, j: int, q: Coord|
            0 <= i < out.len() && 0 <= j < out[i].len() && adjacent(#[trigger] out[i][j], q)
                && img.is_foreground(q.0 as int, q.1 as int) implies #[trigger] out[i].contains(
            q,
        ) by {
            if fa == -1 {
                if i < acc.len() {
                    assert(out[i] == acc[i]);
                } else {
                    assert(out[i] == g);
                    assert(gs[gs.len() - 1].contains(q));
                }
            } else {
                if i != fa {
                    assert(out[i] == acc[i]);
                } else {
                    let joined = acc[fa] + g;
                    assert(out[fa] == joined);
                    let n1 = acc[fa].len() as int;
                    if j < n1 {
                        assert(joined[j] == acc[fa][j]);
                        assert(acc[fa].contains(q));
                        let j2 = choose|j2: int| 0 <= j2 < acc[fa].len() && acc[fa][j2] == q;
                        assert(joined[j2] == q);
                    } else {
                        assert(joined[j] == g[j - n1]);
                        assert(gs[gs.len() - 1].contains(q));
                        let j2 = choose|j2: int| 0 <= j2 < g.len() && g[j2] == q;
                        assert(joined[n1 + j2] == q);
                    }
                }
            }
        }
    }
}

/// No 4-connected foreground path joins pixels of two different groups of
/// the merged output either: merging combines whole components and never
/// splits one.
pub proof fn lemma_merged_groups_disconnected(
    img: Image,
    gs: Seq<Seq<Coord>>,
    i1: int,
    j1: int,
    i2: int,
    j2: int,
)
    requires
        valid_segmentation(img, gs),
        0 <= i1 < merge_pass(gs).len(),
        0 <= j1 < merge_pass(gs)[i1].len(),
        0 <= i2 < merge_pass(gs).len(),
        0 <= j2 < merge_pass(gs)[i2].len(),
        i1 != i2,
    ensures
        !reachable(img, merge_pass(gs)[i1][j1], merge_pass(gs)[i2][j2]),
{
    let out = merge_pass(gs);
    lemma_merge_keeps_partition(gs);
    lemma_merge_keeps_closure(img, gs);
    if reachable(img, out[i1][j1], out[i2][j2]) {
        let s = Set::new(|p: Coord| out[i1].contains(p));
        assert(adjacency_closed(img, s)) by {
            assert forall|p: Coord, q: Coord|
                s.contains(p) && #[trigger] adjacent(p, q) && img.is_foreground(
                    q.0 as int,
                    q.1 as int,
                ) implies #[trigger] s.contains(q) by {
                let j = choose|j: int| 0 <= j < out[i1].len() && out[i1][j] == p;
                assert(adjacent(out[i1][j], q));
                assert(out[i1].contains(q));
            }
        }
        assert(s.contains(out[i1][j1]));
        lemma_reachable_stays(img, s, out[i1][j1], out[i2][j2]);
        assert(out[i1].contains(out[i2][j2]));
        assert(out[i2].contains(out[i2][j2]));
        assert(false);
    }
}

/// A group whose bounding box is exactly the canvas size is composed with
/// zero padding: every canvas pixel comes straight from the crop.
pub proof fn lemma_exact_fit_no_padding(img: Image, g: Seq<Coord>, out: Image)
    requires
        g.len() > 0,
        group_image_spec(img, g, out),
        max_x_of(g) - min_x_of(g) + 1 == TARGET_SIZE,
        max_y_of(g) - min_y_of(g) + 1 == TARGET_SIZE,
    ensures
        forall|tx: int, ty: int|
            0 <= tx < TARGET_SIZE && 0 <= ty < TARGET_SIZE ==> out.pixel(tx, ty) == crop_pixel(
                img,
                g,
                tx,
                ty,
            ),
{
}

} // verus!
