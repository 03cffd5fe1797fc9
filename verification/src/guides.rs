//! Overlay and composition helpers that return a fresh image instead of
//! drawing in place: foreground highlighting, group coloring, per-group
//! composition, derivative resizing, and thin bounding-box outlines.

use vstd::prelude::*;

use crate::connectivity::Coord;
use crate::debug_guides::group_coloring;
use crate::image_processing::group_image_spec;
use crate::image_processing::derivative_size;
use crate::image_processing::has_coord;
use crate::pixel::Image;
use crate::pixel::Rgba;
use crate::pixel::red;
use crate::resample::bytes_of_pixels;
use crate::resample::lanczos_resized;
use crate::resample::pixels_of_bytes;

verus! {

/// The one-pixel outline of a bounding box.
pub open spec fn on_box_outline(b: (usize, usize, usize, usize), x: int, y: int) -> bool {
    ||| b.0 <= x <= b.2 && (y == b.1 || y == b.3)
    ||| b.1 <= y <= b.3 && (x == b.0 || x == b.2)
}

/// A copy of the image with every listed coordinate painted opaque red.
pub fn highlight_non_transparent_pixels(
    image: &Image,
    non_transparent_pixels: &Vec<Coord>,
) -> (r: Image)
    requires
        image.wf(),
        forall|k: int|
            0 <= k < non_transparent_pixels@.len() ==> (#[trigger] non_transparent_pixels@[k]).0
                < image.width && non_transparent_pixels@[k].1 < image.height,
    ensures
        r.wf(),
        r.width == image.width,
        r.height == image.height,
        forall|x: int, y: int|
            image.in_bounds(x, y) ==> r.pixel(x, y) == (if has_coord(
                non_transparent_pixels@,
                x,
                y,
            ) {
                red()
            } else {
                image.pixel(x, y)
            }),
{
    let mut highlighted_pixels = image.duplicate();
    let ghost out0 = highlighted_pixels;
    crate::debug_guides::highlight_non_transparent_pixels(
        &mut highlighted_pixels,
        non_transparent_pixels.as_slice(),
    );
    proof {
        assert forall|x: int, y: int| image.in_bounds(x, y) implies highlighted_pixels.pixel(
            x,
            y,
        ) == (if has_coord(non_transparent_pixels@, x, y) {
            red()
        } else {
            image.pixel(x, y)
        }) by {
            assert(out0.pixel(x, y) == image.pixel(x, y));
        }
    }
    highlighted_pixels
}

/// A copy of the image with each group painted in one random opaque color.
pub fn highlight_connected_groups(pixels: &Image, groups: &[Vec<Coord>]) -> (r: Image)
    requires
        pixels.wf(),
        forall|i: int, j: int|
            0 <= i < groups@.len() && 0 <= j < groups@[i]@.len() ==> (
            #[trigger] groups@[i]@[j]).0 < pixels.width && groups@[i]@[j].1 < pixels.height,
    ensures
        r.wf(),
        r.width == pixels.width,
        r.height == pixels.height,
        exists|colors: Seq<Rgba>| #[trigger] group_coloring(*pixels, r, groups@, colors),
{
    let mut highlighted_groups = pixels.duplicate();
    let ghost out0 = highlighted_groups;
    crate::debug_guides::highlight_connected_groups(&mut highlighted_groups, groups);
    proof {
        let colors = choose|c: Seq<Rgba>|
            #[trigger] group_coloring(out0, highlighted_groups, groups@, c);
        assert forall|x: int, y: int| pixels.in_bounds(x, y) implies highlighted_groups.pixel(
            x,
            y,
        ) == (if crate::debug_guides::last_group_containing(groups@, x, y) >= 0 {
            colors[crate::debug_guides::last_group_containing(groups@, x, y)]
        } else {
            pixels.pixel(x, y)
        }) by {
            assert(out0.pixel(x, y) == pixels.pixel(x, y));
        }
        assert(group_coloring(*pixels, highlighted_groups, groups@, colors));
    }
    highlighted_groups
}

/// Compose one group into its normalized canvas; see
/// [`crate::image_processing::make_group_image`].
pub fn create_group_image(pixels: &Image, group: &[Coord]) -> (out: Image)
    requires
        pixels.wf(),
        group@.len() > 0,
        pixels.width <= u32::MAX,
        pixels.height <= u32::MAX,
        4 * (pixels.width * pixels.height) <= usize::MAX,
        forall|j: int|
            0 <= j < group@.len() ==> (#[trigger] group@[j]).0 < pixels.width && group@[j].1
                < pixels.height,
    ensures
        group_image_spec(*pixels, group@, out),
{
    crate::image_processing::make_group_image(pixels, group)
}

/// Resize a normalized canvas to every derivative target size; see
/// [`crate::image_processing::make_resized_images`].
pub fn make_resized_images(pixels: &Image) -> (r: Vec<Image>)
    requires
        pixels.wf(),
        1 <= pixels.width <= u32::MAX,
        1 <= pixels.height <= u32::MAX,
        4 * (pixels.width * pixels.height) <= usize::MAX,
    ensures
        r@.len() == 6,
        forall|k: int|
            0 <= k < 6 ==> (#[trigger] r@[k]).wf() && r@[k].width == derivative_size(k)
                && r@[k].height == derivative_size(k) && r@[k].data@ == pixels_of_bytes(
                lanczos_resized(
                    bytes_of_pixels(pixels.data@),
                    pixels.width as int,
                    pixels.height as int,
                    derivative_size(k),
                    derivative_size(k),
                ),
            ),
{
    crate::image_processing::make_resized_images(pixels)
}

/// A copy of the image with each bounding box outlined in red, one pixel
/// wide.
pub fn highlight_bounding_boxes(
    pixels: &Image,
    bounding_boxes: &[(usize, usize, usize, usize)],
) -> (r: Image)
    requires
        pixels.wf(),
        forall|i: int|
            0 <= i < bounding_boxes@.len() ==> (#[trigger] bounding_boxes@[i]).0
                <= bounding_boxes@[i].2 < pixels.width && bounding_boxes@[i].1
                <= bounding_boxes@[i].3 < pixels.height,
    ensures
        r.wf(),
        r.width == pixels.width,
        r.height == pixels.height,
        forall|x: int, y: int|
            pixels.in_bounds(x, y) ==> r.pixel(x, y) == (if exists|i: int|
                0 <= i < bounding_boxes@.len() && on_box_outline(
                    #[trigger] bounding_boxes@[i],
                    x,
                    y,
                ) {
                red()
            } else {
                pixels.pixel(x, y)
            }),
{
    let mut highlighted_pixels = pixels.duplicate();
    let ghost out0 = highlighted_pixels;
    proof {
        assert forall|x: int, y: int| pixels.in_bounds(x, y) implies out0.pixel(x, y)
            == pixels.pixel(x, y) by {}
    }
    let mut bi: usize = 0;
    while bi < bounding_boxes.len()
        invariant
            pixels.wf(),
            highlighted_pixels.wf(),
            highlighted_pixels.width == pixels.width,
            highlighted_pixels.height == pixels.height,
            bi <= bounding_boxes@.len(),
            forall|i: int|
                0 <= i < bounding_boxes@.len() ==> (#[trigger] bounding_boxes@[i]).0
                    <= bounding_boxes@[i].2 < pixels.width && bounding_boxes@[i].1
                    <= bounding_boxes@[i].3 < pixels.height,
            forall|x: int, y: int|
                pixels.in_bounds(x, y) ==> highlighted_pixels.pixel(x, y) == (if exists|i: int|
                    0 <= i < bi && on_box_outline(#[trigger] bounding_boxes@[i], x, y) {
                    red()
                } else {
                    pixels.pixel(x, y)
                }),
        decreases bounding_boxes@.len() - bi,
    {
        let (min_x, min_y, max_x, max_y) = bounding_boxes[bi];
        let rp = Rgba { r: 255, g: 0, b: 0, a: 255 };
        let ghost s0 = highlighted_pixels;
        highlighted_pixels.fill_rect(min_x, min_y, max_x + 1, min_y + 1, rp);
        let ghost s1 = highlighted_pixels;
        highlighted_pixels.fill_rect(min_x, max_y, max_x + 1, max_y + 1, rp);
        let ghost s2 = highlighted_pixels;
        highlighted_pixels.fill_rect(min_x, min_y, min_x + 1, max_y + 1, rp);
        let ghost s3 = highlighted_pixels;
        highlighted_pixels.fill_rect(max_x, min_y, max_x + 1, max_y + 1, rp);
        proof {
            let bx = bounding_boxes@[bi as int];
            assert(bx == ((min_x, min_y, max_x, max_y)));
            assert forall|x: int, y: int| pixels.in_bounds(x, y) implies
                highlighted_pixels.pixel(x, y) == (if exists|i: int|
                0 <= i < bi + 1 && on_box_outline(#[trigger] bounding_boxes@[i], x, y) {
                red()
            } else {
                pixels.pixel(x, y)
            }) by {
                assert(s1.pixel(x, y) == (if min_x <= x < max_x + 1 && min_y <= y < min_y + 1 {
                    rp
                } else {
                    s0.pixel(x, y)
                }));
                assert(s2.pixel(x, y) == (if min_x <= x < max_x + 1 && max_y <= y < max_y + 1 {
                    rp
                } else {
                    s1.pixel(x, y)
                }));
                assert(s3.pixel(x, y) == (if min_x <= x < min_x + 1 && min_y <= y < max_y + 1 {
                    rp
                } else {
                    s2.pixel(x, y)
                }));
                assert(highlighted_pixels.pixel(x, y) == (if max_x <= x < max_x + 1 && min_y <= y
                    < max_y + 1 {
                    rp
                } else {
                    s3.pixel(x, y)
                }));
                if on_box_outline(bx, x, y) {
                    assert(highlighted_pixels.pixel(x, y) == red());
                    assert(exists|i: int|
                        0 <= i < bi + 1 && on_box_outline(#[trigger] bounding_boxes@[i], x, y));
                } else {
                    assert(highlighted_pixels.pixel(x, y) == s0.pixel(x, y));
                    if exists|i: int|
                        0 <= i < bi + 1 && on_box_outline(#[trigger] bounding_boxes@[i], x, y) {
                        let i = choose|i: int|
                            0 <= i < bi + 1 && on_box_outline(
                                #[trigger] bounding_boxes@[i],
                                x,
                                y,
                            );
                        assert(i < bi);
                        assert(exists|i2: int|
                            0 <= i2 < bi && on_box_outline(#[trigger] bounding_boxes@[i2], x, y));
                    }
                }
            }
        }
        bi = bi + 1;
    }
    highlighted_pixels
}

} // verus!
