use emote_splitter::debug_guides;
use emote_splitter::guides;
use emote_splitter::pixel::Image;
use emote_splitter::pixel::Rgba;

const RED: Rgba = Rgba { r: 255, g: 0, b: 0, a: 255 };
const BASE: Rgba = Rgba { r: 1, g: 2, b: 3, a: 4 };

fn base_image(width: usize, height: usize) -> Image {
    let data = vec![BASE; width * height];
    Image { width, height, data }
}

#[test]
fn highlight_pixels_paints_exactly_the_listed_coordinates() {
    let img = base_image(4, 3);
    let pts = vec![(0, 0), (2, 1)];
    let out = guides::highlight_non_transparent_pixels(&img, &pts);
    for y in 0..3 {
        for x in 0..4 {
            let expected = if pts.contains(&(x, y)) { RED } else { BASE };
            assert_eq!(out.data[y * 4 + x], expected);
        }
    }
    // the source image is untouched
    assert!(img.data.iter().all(|p| *p == BASE));
}

#[test]
fn highlight_pixels_in_place_matches_copying_version() {
    let mut img = base_image(4, 3);
    let pts = vec![(1, 2), (3, 0)];
    debug_guides::highlight_non_transparent_pixels(&mut img, &pts);
    for y in 0..3 {
        for x in 0..4 {
            let expected = if pts.contains(&(x, y)) { RED } else { BASE };
            assert_eq!(img.data[y * 4 + x], expected);
        }
    }
}

#[test]
fn groups_get_one_opaque_color_each() {
    let mut img = base_image(6, 1);
    let groups = vec![vec![(0, 0), (1, 0)], vec![(3, 0), (4, 0)]];
    debug_guides::highlight_connected_groups(&mut img, &groups);
    let c0 = img.data[0];
    let c1 = img.data[3];
    assert_eq!(img.data[1], c0);
    assert_eq!(img.data[4], c1);
    assert_eq!(c0.a, 255);
    assert_eq!(c1.a, 255);
    // pixels outside every group keep their value
    assert_eq!(img.data[2], BASE);
    assert_eq!(img.data[5], BASE);
}

#[test]
fn overlapping_groups_show_the_later_color() {
    let mut img = base_image(3, 1);
    let groups = vec![vec![(0, 0), (1, 0)], vec![(1, 0), (2, 0)]];
    debug_guides::highlight_connected_groups(&mut img, &groups);
    let later = img.data[2];
    assert_eq!(img.data[1], later);
    assert_eq!(later.a, 255);
}

#[test]
fn thin_box_outline_marks_edges_only() {
    let img = base_image(12, 12);
    let boxes = vec![(2usize, 2usize, 8usize, 8usize)];
    let out = guides::highlight_bounding_boxes(&img, &boxes);
    let px = |x: usize, y: usize| out.data[y * 12 + x];
    assert_eq!(px(2, 2), RED);
    assert_eq!(px(5, 2), RED);
    assert_eq!(px(8, 8), RED);
    assert_eq!(px(2, 5), RED);
    assert_eq!(px(8, 5), RED);
    assert_eq!(px(5, 5), BASE);
    assert_eq!(px(1, 1), BASE);
    assert_eq!(px(9, 5), BASE);
}

#[test]
fn thick_frame_on_narrow_box_extends_past_it() {
    // a box three pixels wide: the four-pixel left band reaches one column
    // past the right edge, as the in-place drawer paints it
    let mut img = base_image(12, 12);
    let boxes = vec![(2usize, 0usize, 4usize, 9usize)];
    debug_guides::highlight_bounding_boxes(&mut img, &boxes);
    let px = |x: usize, y: usize| img.data[y * 12 + x];
    assert_eq!(px(2, 5), RED);
    assert_eq!(px(4, 5), RED);
    assert_eq!(px(5, 5), RED);
    assert_eq!(px(6, 5), BASE);
    assert_eq!(px(1, 5), RED);
    assert_eq!(px(0, 5), BASE);
    assert_eq!(px(2, 0), RED);
    assert_eq!(px(2, 9), RED);
}

#[test]
fn thick_box_frame_is_four_pixels_deep() {
    let mut img = base_image(12, 12);
    let boxes = vec![(0usize, 0usize, 9usize, 9usize)];
    debug_guides::highlight_bounding_boxes(&mut img, &boxes);
    let px = |x: usize, y: usize| img.data[y * 12 + x];
    assert_eq!(px(0, 0), RED);
    assert_eq!(px(5, 3), RED);
    assert_eq!(px(5, 6), RED);
    assert_eq!(px(3, 5), RED);
    assert_eq!(px(6, 5), RED);
    assert_eq!(px(5, 5), BASE);
    assert_eq!(px(4, 4), BASE);
    assert_eq!(px(10, 10), BASE);
    assert_eq!(px(11, 0), BASE);
}
