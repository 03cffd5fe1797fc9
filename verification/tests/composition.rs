use emote_splitter::image_processing::make_group_image;
use emote_splitter::image_processing::make_resized_images;
use emote_splitter::guides::create_group_image;
use emote_splitter::pixel::Image;
use emote_splitter::pixel::Rgba;

const S: usize = 448;

fn solid(width: usize, height: usize, p: Rgba) -> Image {
    let data = vec![p; width * height];
    Image { width, height, data }
}

fn full_group(width: usize, height: usize) -> Vec<(usize, usize)> {
    let mut g = Vec::new();
    for y in 0..height {
        for x in 0..width {
            g.push((x, y));
        }
    }
    g
}

const OPAQUE: Rgba = Rgba { r: 200, g: 100, b: 50, a: 255 };
const CLEAR: Rgba = Rgba { r: 0, g: 0, b: 0, a: 0 };

#[test]
fn oversized_group_is_downscaled_to_target() {
    // a 500x500 crop exceeds the target in both dimensions and is resampled
    // to exactly 448x448
    let img = solid(500, 500, OPAQUE);
    let group = full_group(500, 500);
    let out = make_group_image(&img, &group);
    assert_eq!(out.width, S);
    assert_eq!(out.height, S);
    assert_eq!(out.data.len(), S * S);
}

#[test]
fn small_group_is_padded_centered_and_bottom_aligned() {
    // a 100x50 crop takes the paste branch: start_x = (448 - 100) / 2 = 174,
    // start_y = 448 - 50 = 398
    let img = solid(100, 50, OPAQUE);
    let group = full_group(100, 50);
    let out = make_group_image(&img, &group);
    assert_eq!(out.width, S);
    assert_eq!(out.height, S);
    let px = |x: usize, y: usize| out.data[y * S + x];
    assert_eq!(px(174, 398), OPAQUE);
    assert_eq!(px(174 + 99, 398 + 49), OPAQUE);
    assert_eq!(px(173, 398), CLEAR);
    assert_eq!(px(174 + 100, 398), CLEAR);
    assert_eq!(px(174, 397), CLEAR);
    assert_eq!(px(0, 0), CLEAR);
    assert_eq!(px(S - 1, S - 1), CLEAR);
}

#[test]
fn exact_fit_group_fills_canvas_without_padding() {
    // a group whose bounding box is exactly 448x448 is pasted with zero
    // padding: the canvas equals the source
    let img = solid(S, S, OPAQUE);
    let group = full_group(S, S);
    let out = make_group_image(&img, &group);
    assert_eq!(out.width, S);
    assert_eq!(out.height, S);
    assert_eq!(out.data, img.data);
}

#[test]
fn crop_keeps_only_group_pixels() {
    // within the bounding box, pixels that are not in the group stay
    // transparent in the crop
    let mut img = solid(3, 1, CLEAR);
    img.data[0] = OPAQUE;
    img.data[2] = OPAQUE;
    let group = vec![(0, 0), (2, 0)];
    let out = make_group_image(&img, &group);
    // crop is 3x1, pasted at start_x = (448 - 3) / 2 = 222, start_y = 447
    let px = |x: usize, y: usize| out.data[y * S + x];
    assert_eq!(px(222, 447), OPAQUE);
    assert_eq!(px(223, 447), CLEAR);
    assert_eq!(px(224, 447), OPAQUE);
}

#[test]
fn group_offset_is_removed_by_cropping() {
    // a group away from the origin is shifted to the crop origin
    let mut img = solid(10, 10, CLEAR);
    img.data[7 * 10 + 6] = OPAQUE;
    img.data[7 * 10 + 7] = OPAQUE;
    let group = vec![(6, 7), (7, 7)];
    let out = make_group_image(&img, &group);
    // crop is 2x1: start_x = 223, start_y = 447
    let px = |x: usize, y: usize| out.data[y * S + x];
    assert_eq!(px(223, 447), OPAQUE);
    assert_eq!(px(224, 447), OPAQUE);
    assert_eq!(px(222, 447), CLEAR);
    assert_eq!(px(225, 447), CLEAR);
}

#[test]
fn create_group_image_matches_make_group_image() {
    let img = solid(100, 50, OPAQUE);
    let group = full_group(100, 50);
    let a = make_group_image(&img, &group);
    let b = create_group_image(&img, &group);
    assert_eq!(a, b);
}

#[test]
fn derivative_images_have_the_six_target_sizes() {
    let canvas = solid(S, S, OPAQUE);
    let derived = make_resized_images(&canvas);
    assert_eq!(derived.len(), 6);
    let sizes = [28, 56, 112, 18, 36, 72];
    for (img, &size) in derived.iter().zip(sizes.iter()) {
        assert_eq!(img.width, size);
        assert_eq!(img.height, size);
        assert_eq!(img.data.len(), size * size);
    }
}

#[test]
fn resampling_a_solid_canvas_keeps_it_opaque() {
    // the derivative of a solid opaque canvas cannot be the transparent
    // buffer or the unchanged input
    let canvas = solid(S, S, OPAQUE);
    let derived = make_resized_images(&canvas);
    let small = &derived[0];
    assert_eq!(small.data.len(), 28 * 28);
    assert!(small.data.iter().all(|p| p.a > 0));
}
