//! Debug overlays drawn in place: foreground pixels in red, groups in
//! per-group random colors, bounding boxes as thick red frames.

use vstd::prelude::*;

use crate::connectivity::Coord;
use crate::image_processing::has_coord;
use crate::pixel::Image;
use crate::pixel::Rgba;
use crate::pixel::red;
use crate::rng::random_byte;

verus! {

/// The index of the last group in the list that holds `(x, y)`, or `-1`.
pub open spec fn last_group_containing(gs: Seq<Vec<Coord>>, x: int, y: int) -> int
    decreases gs.len(),
{
    if gs.len() == 0 {
        -1
    } else if has_coord(gs.last()@, x, y) {
        gs.len() - 1
    } else {
        last_group_containing(gs.drop_last(), x, y)
    }
}

pub proof fn lemma_last_group_containing_bounds(gs: Seq<Vec<Coord>>, x: int, y: int)
    ensures
        -1 <= last_group_containing(gs, x, y) < gs.len(),
    decreases gs.len(),
{
    if gs.len() > 0 {
        lemma_last_group_containing_bounds(gs.drop_last(), x, y);
    }
}

/// The overlay painted each group in one opaque color and left every other
/// pixel of the source untouched; overlapping groups show the color of the
/// later group.
pub open spec fn group_coloring(
    orig: Image,
    out: Image,
    gs: Seq<Vec<Coord>>,
    colors: Seq<Rgba>,
) -> bool {
    &&& colors.len() == gs.len()
    &&& forall|k: int| 0 <= k < colors.len() ==> (#[trigger] colors[k]).a == 255
    &&& forall|x: int, y: int|
        orig.in_bounds(x, y) ==> out.pixel(x, y) == (if last_group_containing(gs, x, y) >= 0 {
            colors[last_group_containing(gs, x, y)]
        } else {
            orig.pixel(x, y)
        })
}

/// The thick frame of a bounding box: a band four pixels deep along each of
/// its four edges. On a box narrower or shorter than four pixels the left
/// and top bands extend past the opposite edge.
pub open spec fn in_box_band(b: (usize, usize, usize, usize), x: int, y: int) -> bool {
    ||| b.0 <= x <= b.2 && (b.1 <= y < b.1 + 4 || b.3 - 3 <= y <= b.3)
    ||| b.1 <= y <= b.3 && (b.0 <= x < b.0 + 4 || b.2 - 3 <= x <= b.2)
}

/// Paint every listed coordinate opaque red, in place.
pub fn highlight_non_transparent_pixels(image: &mut Image, non_transparent_pixels: &[Coord])
    requires
        old(image).wf(),
        forall|k: int|
            0 <= k < non_transparent_pixels@.len() ==> (#[trigger] non_transparent_pixels@[k]).0
                < old(image).width && non_transparent_pixels@[k].1 < old(image).height,
    ensures
        final(image).wf(),
        final(image).width == old(image).width,
        final(image).height == old(image).height,
        forall|x: int, y: int|
            old(image).in_bounds(x, y) ==> final(image).pixel(x, y) == (if has_coord(
                non_transparent_pixels@,
                x,
                y,
            ) {
                red()
            } else {
                old(image).pixel(x, y)
            }),
{
    let pts = non_transparent_pixels;
    let mut k: usize = 0;
    while k < pts.len()
        invariant
            old(image).wf(),
            image.wf(),
            image.width == old(image).width,
            image.height == old(image).height,
            k <= pts@.len(),
            forall|j: int|
                0 <= j < pts@.len() ==> (#[trigger] pts@[j]).0 < old(image).width && pts@[j].1
                    < old(image).height,
            forall|x: int, y: int|
                old(image).in_bounds(x, y) ==> image.pixel(x, y) == (if has_coord(
                    pts@.subrange(0, k as int),
                    x,
                    y,
                ) {
                    red()
                } else {
                    old(image).pixel(x, y)
                }),
        decreases pts@.len() - k,
    {
        let (x, y) = pts[k];
        let ghost before = *image;
        image.put_pixel(x, y, Rgba { r: 255, g: 0, b: 0, a: 255 });
        proof {
            let pre = pts@.subrange(0, k as int);
            let cur = pts@.subrange(0, k as int + 1);
            assert(cur.drop_last() =~= pre);
            assert(cur[k as int] == pts@[k as int]);
            assert forall|x2: int, y2: int| old(image).in_bounds(x2, y2) implies image.pixel(
                x2,
                y2,
            ) == (if has_coord(cur, x2, y2) {
                red()
            } else {
                old(image).pixel(x2, y2)
            }) by {
                if x2 == x as int && y2 == y as int {
                    assert(cur[k as int] == ((x, y)));
                    assert(has_coord(cur, x2, y2));
                    assert(image.pixel(x2, y2) == red());
                } else {
                    assert(image.pixel(x2, y2) == before.pixel(x2, y2));
                    if has_coord(cur, x2, y2) {
                        let w = choose|w: int|
                            0 <= w < cur.len() && #[trigger] cur[w] == ((
                            x2 as usize,
                            y2 as usize,
                            ));
                        if w == k as int {
                            assert(false);
                        } else {
                            assert(pre[w] == cur[w]);
                            assert(has_coord(pre, x2, y2));
                        }
                    }
                    if has_coord(pre, x2, y2) {
                        let w = choose|w: int|
                            0 <= w < pre.len() && #[trigger] pre[w] == ((
                            x2 as usize,
                            y2 as usize,
                            ));
                        assert(cur[w] == pre[w]);
                        assert(has_coord(cur, x2, y2));
                    }
                }
            }
        }
        k = k + 1;
    }
    proof {
        assert(pts@.subrange(0, pts@.len() as int) =~= pts@);
    }
}

/// Paint each group in one random opaque color, in place.
pub fn highlight_connected_groups(image: &mut Image, groups: &[Vec<Coord>])
    requires
        old(image).wf(),
        forall|i: int, j: int|
            0 <= i < groups@.len() && 0 <= j < groups@[i]@.len() ==> (
            #[trigger] groups@[i]@[j]).0 < old(image).width && groups@[i]@[j].1 < old(
                image,
            ).height,
    ensures
        final(image).wf(),
        final(image).width == old(image).width,
        final(image).height == old(image).height,
        exists|colors: Seq<Rgba>|
            #[trigger] group_coloring(*old(image), *final(image), groups@, colors),
{
    let ghost mut colors: Seq<Rgba> = Seq::empty();
    let mut gi: usize = 0;
    while gi < groups.len()
        invariant
            old(image).wf(),
            image.wf(),
            image.width == old(image).width,
            image.height == old(image).height,
            gi <= groups@.len(),
            forall|i: int, j: int|
                0 <= i < groups@.len() && 0 <= j < groups@[i]@.len() ==> (
                #[trigger] groups@[i]@[j]).0 < old(image).width && groups@[i]@[j].1 < old(
                    image,
                ).height,
            colors.len() == gi,
            forall|k: int| 0 <= k < colors.len() ==> (#[trigger] colors[k]).a == 255,
            forall|x: int, y: int|
                old(image).in_bounds(x, y) ==> image.pixel(x, y) == (if last_group_containing(
                    groups@.subrange(0, gi as int),
                    x,
                    y,
                ) >= 0 {
                    colors[last_group_containing(groups@.subrange(0, gi as int), x, y)]
                } else {
                    old(image).pixel(x, y)
                }),
        decreases groups@.len() - gi,
    {
        let cr = random_byte();
        let cg = random_byte();
        let cb = random_byte();
        let color = Rgba { r: cr, g: cg, b: cb, a: 255 };
        let ghost at_entry = *image;
        let group = &groups[gi];
        let mut k: usize = 0;
        while k < group.len()
            invariant
                old(image).wf(),
                image.wf(),
                image.width == old(image).width,
                image.height == old(image).height,
                k <= group@.len(),
                group@ == groups@[gi as int]@,
                gi < groups@.len(),
                forall|j: int|
                    0 <= j < group@.len() ==> (#[trigger] group@[j]).0 < old(image).width
                        && group@[j].1 < old(image).height,
                forall|x: int, y: int|
                    old(image).in_bounds(x, y) ==> image.pixel(x, y) == (if has_coord(
                        group@.subrange(0, k as int),
                        x,
                        y,
                    ) {
                        color
                    } else {
                        at_entry.pixel(x, y)
                    }),
            decreases group@.len() - k,
        {
            let (x, y) = group[k];
            let ghost before = *image;
            image.put_pixel(x, y, color);
            proof {
                let pre = group@.subrange(0, k as int);
                let cur = group@.subrange(0, k as int + 1);
                assert(cur.drop_last() =~= pre);
                assert(cur[k as int] == group@[k as int]);
                assert forall|x2: int, y2: int| old(image).in_bounds(x2, y2) implies image.pixel(
                    x2,
                    y2,
                ) == (if has_coord(cur, x2, y2) {
                    color
                } else {
                    at_entry.pixel(x2, y2)
                }) by {
                    if x2 == x as int && y2 == y as int {
                        assert(cur[k as int] == ((x, y)));
                        assert(has_coord(cur, x2, y2));
                    } else {
                        assert(image.pixel(x2, y2) == before.pixel(x2, y2));
                        if has_coord(cur, x2, y2) {
                            let w = choose|w: int|
                                0 <= w < cur.len() && #[trigger] cur[w] == ((
                                x2 as usize,
                                y2 as usize,
                                ));
                            if w == k as int {
                                assert(false);
                            } else {
                                assert(pre[w] == cur[w]);
                            }
                        }
                        if has_coord(pre, x2, y2) {
                            let w = choose|w: int|
                                0 <= w < pre.len() && #[trigger] pre[w] == ((
                                x2 as usize,
                                y2 as usize,
                                ));
                            assert(cur[w] == pre[w]);
                        }
                    }
                }
            }
            k = k + 1;
        }
        proof {
            let colors0 = colors;
            colors = colors.push(color);
            assert(colors.len() == gi + 1);
            assert(colors[gi as int] == color);
            assert(forall|k: int| 0 <= k < gi ==> colors[k] == colors0[k]);
            assert(group@.subrange(0, group@.len() as int) =~= group@);
            let pre_groups = groups@.subrange(0, gi as int);
            let cur_groups = groups@.subrange(0, gi as int + 1);
            assert(cur_groups.drop_last() =~= pre_groups);
            assert(cur_groups.last() == groups@[gi as int]);
            assert forall|x2: int, y2: int| old(image).in_bounds(x2, y2) implies image.pixel(
                x2,
                y2,
            ) == (if last_group_containing(cur_groups, x2, y2) >= 0 {
                colors[last_group_containing(cur_groups, x2, y2)]
            } else {
                old(image).pixel(x2, y2)
            }) by {
                let lcur = last_group_containing(cur_groups, x2, y2);
                if has_coord(groups@[gi as int]@, x2, y2) {
                    assert(has_coord(cur_groups.last()@, x2, y2));
                    assert(lcur == gi as int);
                    assert(has_coord(group@, x2, y2));
                    assert(image.pixel(x2, y2) == color);
                    assert(colors[lcur] == color);
                } else {
                    assert(!has_coord(cur_groups.last()@, x2, y2));
                    assert(lcur == last_group_containing(pre_groups, x2, y2));
                    assert(!has_coord(group@, x2, y2));
                    assert(image.pixel(x2, y2) == at_entry.pixel(x2, y2));
                    if lcur >= 0 {
                        lemma_last_group_containing_bounds(pre_groups, x2, y2);
                        assert(lcur < gi);
                        assert(at_entry.pixel(x2, y2) == colors0[lcur]);
                        assert(colors[lcur] == colors0[lcur]);
                    } else {
                        assert(at_entry.pixel(x2, y2) == old(image).pixel(x2, y2));
                    }
                }
            }
        }
        gi = gi + 1;
    }
    proof {
        assert(groups@.subrange(0, groups@.len() as int) =~= groups@);
        assert(group_coloring(*old(image), *image, groups@, colors));
    }
}

/// Draw a four-pixel-thick red frame along each bounding box, in place.
pub fn highlight_bounding_boxes(
    image: &mut Image,
    bounding_boxes: &[(usize, usize, usize, usize)],
)
    requires
        old(image).wf(),
        forall|i: int|
            0 <= i < bounding_boxes@.len() ==> (#[trigger] bounding_boxes@[i]).0
                <= bounding_boxes@[i].2 < old(image).width && bounding_boxes@[i].1
                <= bounding_boxes@[i].3 < old(image).height && bounding_boxes@[i].2 >= 3
                && bounding_boxes@[i].3 >= 3 && bounding_boxes@[i].0 + 3 < old(image).width
                && bounding_boxes@[i].1 + 3 < old(image).height,
    ensures
        final(image).wf(),
        final(image).width == old(image).width,
        final(image).height == old(image).height,
        forall|x: int, y: int|
            old(image).in_bounds(x, y) ==> final(image).pixel(x, y) == (if exists|i: int|
                0 <= i < bounding_boxes@.len() && in_box_band(#[trigger] bounding_boxes@[i], x, y) {
                red()
            } else {
                old(image).pixel(x, y)
            }),
{
    let mut bi: usize = 0;
    while bi < bounding_boxes.len()
        invariant
            old(image).wf(),
            image.wf(),
            image.width == old(image).width,
            image.height == old(image).height,
            bi <= bounding_boxes@.len(),
            forall|i: int|
                0 <= i < bounding_boxes@.len() ==> (#[trigger] bounding_boxes@[i]).0
                    <= bounding_boxes@[i].2 < old(image).width && bounding_boxes@[i].1
                    <= bounding_boxes@[i].3 < old(image).height && bounding_boxes@[i].2 >= 3
                    && bounding_boxes@[i].3 >= 3 && bounding_boxes@[i].0 + 3 < old(image).width
                    && bounding_boxes@[i].1 + 3 < old(image).height,
            forall|x: int, y: int|
                old(image).in_bounds(x, y) ==> image.pixel(x, y) == (if exists|i: int|
                    0 <= i < bi && in_box_band(#[trigger] bounding_boxes@[i], x, y) {
                    red()
                } else {
                    old(image).pixel(x, y)
                }),
        decreases bounding_boxes@.len() - bi,
    {
        let (min_x, min_y, max_x, max_y) = bounding_boxes[bi];
        let rp = Rgba { r: 255, g: 0, b: 0, a: 255 };
        let ghost s0 = *image;
        image.fill_rect(min_x, min_y, max_x + 1, min_y + 4, rp);
        let ghost s1 = *image;
        image.fill_rect(min_x, max_y - 3, max_x + 1, max_y + 1, rp);
        let ghost s2 = *image;
        image.fill_rect(min_x, min_y, min_x + 4, max_y + 1, rp);
        let ghost s3 = *image;
        image.fill_rect(max_x - 3, min_y, max_x + 1, max_y + 1, rp);
        proof {
            let bx = bounding_boxes@[bi as int];
            assert(bx == ((min_x, min_y, max_x, max_y)));
            assert forall|x: int, y: int| old(image).in_bounds(x, y) implies image.pixel(x, y)
                == (if exists|i: int|
                0 <= i < bi + 1 && in_box_band(#[trigger] bounding_boxes@[i], x, y) {
                red()
            } else {
                old(image).pixel(x, y)
            }) by {
                assert(s1.pixel(x, y) == (if min_x <= x < max_x + 1 && min_y <= y < min_y + 4 {
                    rp
                } else {
                    s0.pixel(x, y)
                }));
                assert(s2.pixel(x, y) == (if min_x <= x < max_x + 1 && max_y - 3 <= y < max_y + 1 {
                    rp
                } else {
                    s1.pixel(x, y)
                }));
                assert(s3.pixel(x, y) == (if min_x <= x < min_x + 4 && min_y <= y < max_y + 1 {
                    rp
                } else {
                    s2.pixel(x, y)
                }));
                assert(image.pixel(x, y) == (if max_x - 3 <= x < max_x + 1 && min_y <= y < max_y
                    + 1 {
                    rp
                } else {
                    s3.pixel(x, y)
                }));
                if in_box_band(bx, x, y) {
                    assert(image.pixel(x, y) == red());
                    assert(exists|i: int|
                        0 <= i < bi + 1 && in_box_band(#[trigger] bounding_boxes@[i], x, y));
                } else {
                    assert(image.pixel(x, y) == s0.pixel(x, y));
                    if exists|i: int|
                        0 <= i < bi + 1 && in_box_band(#[trigger] bounding_boxes@[i], x, y) {
                        let i = choose|i: int|
                            0 <= i < bi + 1 && in_box_band(#[trigger] bounding_boxes@[i], x, y);
                        assert(i < bi);
                        assert(exists|i2: int|
                            0 <= i2 < bi && in_box_band(#[trigger] bounding_boxes@[i2], x, y));
                    }
                }
            }
        }
        bi = bi + 1;
    }
}

} // verus!
